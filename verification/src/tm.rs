//! The channel policy of the tone mapper.

use vstd::prelude::*;
use vstd::utf8::{encode_utf8, encode_utf8_decode_utf8};

verus! {

broadcast use vstd::slice::group_slice_axioms;

/// How the tone curve is applied to the three channels of a pixel.
#[derive(Debug, Clone, Copy, PartialEq, Eq, Structural)]
pub enum ToneMapMethod {
    /// The curve is applied to red, green and blue one by one.
    Rgb,
    /// The curve is applied to the largest channel, and the other two are
    /// scaled by the same ratio.
    MaxRgb,
}

/// The method that a name stands for: `rgb` or `maxrgb`, and no other.
pub open spec fn method_named(name: Seq<char>) -> Option<ToneMapMethod> {
    if name == "rgb"@ {
        Some(ToneMapMethod::Rgb)
    } else if name == "maxrgb"@ {
        Some(ToneMapMethod::MaxRgb)
    } else {
        None
    }
}

/// Whether two strings hold the same text.
fn same_text(a: &str, b: &str) -> (same: bool)
    ensures
        same == (a@ == b@),
{
    let x = a.as_bytes();
    let y = b.as_bytes();
    if x.len() != y.len() {
        return false;
    }
    let mut i: usize = 0;
    while i < x.len()
        invariant
            i <= x.len(),
            x.len() == y.len(),
            x@ == encode_utf8(a@),
            y@ == encode_utf8(b@),
            forall|j: int| 0 <= j < i ==> x@[j] == y@[j],
        decreases x.len() - i,
    {
        if x[i] != y[i] {
            return false;
        }
        i = i + 1;
    }
    proof {
        assert(x@ =~= y@);
        encode_utf8_decode_utf8(a@);
        encode_utf8_decode_utf8(b@);
    }
    true
}

impl ToneMapMethod {
    /// The method with the given name, if there is one.
    pub fn from_name(name: &str) -> (method: Option<ToneMapMethod>)
        ensures
            method == method_named(name@),
    {
        if same_text(name, "rgb") {
            Some(ToneMapMethod::Rgb)
        } else if same_text(name, "maxrgb") {
            Some(ToneMapMethod::MaxRgb)
        } else {
            None
        }
    }
}

} // verus!
