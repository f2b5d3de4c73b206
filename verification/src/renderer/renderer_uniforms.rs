use vstd::prelude::*;

verus! {

/// Per-frame values that the path tracing shader reads.
#[derive(Debug, Clone, Copy, PartialEq, Eq, Structural)]
pub struct RendererUniforms {
    pub frame: u32,
}

impl RendererUniforms {
    /// The uniforms of the next frame: the frame counter one higher.
    pub fn next_frame(&self) -> (next: RendererUniforms)
        requires
            self.frame < u32::MAX,
        ensures
            next.frame == self.frame + 1,
    {
        RendererUniforms { frame: self.frame + 1 }
    }

    /// Replaces the stored value with `new_val`; the result tells whether the value
    /// changed, that is whether the GPU copy has to be rewritten.
    pub fn apply_update(&mut self, new_val: RendererUniforms) -> (changed: bool)
        ensures
            *final(self) == new_val,
            changed == update_changes(*old(self), new_val),
            changed == (old(self).frame != new_val.frame),
            final(self).frame == new_val.frame,
    {
        if *self != new_val {
            *self = new_val;
            true
        } else {
            false
        }
    }
}

/// Storing `new_val` over `current` changes the stored value.
pub open spec fn update_changes(current: RendererUniforms, new_val: RendererUniforms) -> bool {
    current != new_val
}

/// Storing a value that is already stored changes nothing: after one update, the
/// same update again needs no upload.
pub proof fn lemma_repeated_update_changes_nothing(new_val: RendererUniforms)
    ensures
        !update_changes(new_val, new_val),
{
}

/// An update changes the stored uniforms exactly when the new frame counter
/// differs from the stored one, whether it is higher or lower.
pub proof fn lemma_update_changes_iff_frame_differs(current: RendererUniforms, new_val: RendererUniforms)
    ensures
        update_changes(current, new_val) <==> current.frame != new_val.frame,
{
}

} // verus!
