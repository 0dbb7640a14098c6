//! `(EventKind, EventKind)` entries of the cross-rate table. Event edges are
//! rescaled by dedicated event drains, so they keep no per-edge state.
use super::{
    CrossRateKernel, DefaultPolicy, DownDir, EventKind, LatchPolicy, LinearPolicy, SincIirPolicy, SincPolicy, UpDir,
};
use vstd::prelude::*;

verus! {

impl CrossRateKernel<EventKind, EventKind, DefaultPolicy, 1, UpDir> for () {
    type State = ();
}

impl CrossRateKernel<EventKind, EventKind, DefaultPolicy, 2, UpDir> for () {
    type State = ();
}

impl CrossRateKernel<EventKind, EventKind, DefaultPolicy, 4, UpDir> for () {
    type State = ();
}

impl CrossRateKernel<EventKind, EventKind, DefaultPolicy, 8, UpDir> for () {
    type State = ();
}

impl CrossRateKernel<EventKind, EventKind, LatchPolicy, 1, UpDir> for () {
    type State = ();
}

impl CrossRateKernel<EventKind, EventKind, LatchPolicy, 2, UpDir> for () {
    type State = ();
}

impl CrossRateKernel<EventKind, EventKind, LatchPolicy, 4, UpDir> for () {
    type State = ();
}

impl CrossRateKernel<EventKind, EventKind, LatchPolicy, 8, UpDir> for () {
    type State = ();
}

impl CrossRateKernel<EventKind, EventKind, LinearPolicy, 1, UpDir> for () {
    type State = ();
}

impl CrossRateKernel<EventKind, EventKind, LinearPolicy, 2, UpDir> for () {
    type State = ();
}

impl CrossRateKernel<EventKind, EventKind, LinearPolicy, 4, UpDir> for () {
    type State = ();
}

impl CrossRateKernel<EventKind, EventKind, LinearPolicy, 8, UpDir> for () {
    type State = ();
}

impl CrossRateKernel<EventKind, EventKind, SincPolicy, 1, UpDir> for () {
    type State = ();
}

impl CrossRateKernel<EventKind, EventKind, SincPolicy, 2, UpDir> for () {
    type State = ();
}

impl CrossRateKernel<EventKind, EventKind, SincPolicy, 4, UpDir> for () {
    type State = ();
}

impl CrossRateKernel<EventKind, EventKind, SincPolicy, 8, UpDir> for () {
    type State = ();
}

impl CrossRateKernel<EventKind, EventKind, SincIirPolicy, 1, UpDir> for () {
    type State = ();
}

impl CrossRateKernel<EventKind, EventKind, SincIirPolicy, 2, UpDir> for () {
    type State = ();
}

impl CrossRateKernel<EventKind, EventKind, SincIirPolicy, 4, UpDir> for () {
    type State = ();
}

impl CrossRateKernel<EventKind, EventKind, SincIirPolicy, 8, UpDir> for () {
    type State = ();
}

impl CrossRateKernel<EventKind, EventKind, DefaultPolicy, 1, DownDir> for () {
    type State = ();
}

impl CrossRateKernel<EventKind, EventKind, DefaultPolicy, 2, DownDir> for () {
    type State = ();
}

impl CrossRateKernel<EventKind, EventKind, DefaultPolicy, 4, DownDir> for () {
    type State = ();
}

impl CrossRateKernel<EventKind, EventKind, DefaultPolicy, 8, DownDir> for () {
    type State = ();
}

impl CrossRateKernel<EventKind, EventKind, LatchPolicy, 1, DownDir> for () {
    type State = ();
}

impl CrossRateKernel<EventKind, EventKind, LatchPolicy, 2, DownDir> for () {
    type State = ();
}

impl CrossRateKernel<EventKind, EventKind, LatchPolicy, 4, DownDir> for () {
    type State = ();
}

impl CrossRateKernel<EventKind, EventKind, LatchPolicy, 8, DownDir> for () {
    type State = ();
}

impl CrossRateKernel<EventKind, EventKind, LinearPolicy, 1, DownDir> for () {
    type State = ();
}

impl CrossRateKernel<EventKind, EventKind, LinearPolicy, 2, DownDir> for () {
    type State = ();
}

impl CrossRateKernel<EventKind, EventKind, LinearPolicy, 4, DownDir> for () {
    type State = ();
}

impl CrossRateKernel<EventKind, EventKind, LinearPolicy, 8, DownDir> for () {
    type State = ();
}

impl CrossRateKernel<EventKind, EventKind, SincPolicy, 1, DownDir> for () {
    type State = ();
}

impl CrossRateKernel<EventKind, EventKind, SincPolicy, 2, DownDir> for () {
    type State = ();
}

impl CrossRateKernel<EventKind, EventKind, SincPolicy, 4, DownDir> for () {
    type State = ();
}

impl CrossRateKernel<EventKind, EventKind, SincPolicy, 8, DownDir> for () {
    type State = ();
}

impl CrossRateKernel<EventKind, EventKind, SincIirPolicy, 1, DownDir> for () {
    type State = ();
}

impl CrossRateKernel<EventKind, EventKind, SincIirPolicy, 2, DownDir> for () {
    type State = ();
}

impl CrossRateKernel<EventKind, EventKind, SincIirPolicy, 4, DownDir> for () {
    type State = ();
}

impl CrossRateKernel<EventKind, EventKind, SincIirPolicy, 8, DownDir> for () {
    type State = ();
}

} // verus!
