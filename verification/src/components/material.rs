use vstd::prelude::*;

verus! {

/// A material that gives off light in the colour of its texture and scatters
/// nothing. The texture type is left open: evaluating it belongs to whoever
/// shades the scene.
#[derive(Debug, Clone)]
pub struct DiffuseLight<T> {
    texture: T,
}

impl<T> DiffuseLight<T> {
    /// The texture whose value the light emits.
    pub closed spec fn emission(self) -> T {
        self.texture
    }

    /// A light that emits the given texture.
    pub fn new(texture: T) -> (light: Self)
        ensures
            light.emission() == texture,
    {
        DiffuseLight { texture }
    }

    /// The texture whose value the light emits.
    pub fn texture(&self) -> (texture: &T)
        ensures
            *texture == self.emission(),
    {
        &self.texture
    }
}

} // verus!
