use vstd::prelude::*;

verus! {

/// The scenes that come with the renderer, chosen by name in the user interface.
#[derive(Debug, Clone, Copy, PartialEq, Eq, Structural)]
pub enum BuiltinScene {
    Empty,
    First,
    Second,
    MovingSpheres,
    CheckeredSpheres,
    PerlinSpheres,
    Quads,
    SimpleLight,
    CornellBox,
    CornellSmoke,
}

impl Default for BuiltinScene {
    /// The scene shown when nothing else was chosen: `First`.
    fn default() -> (scene: Self)
        ensures
            scene == BuiltinScene::First,
    {
        BuiltinScene::First
    }
}

} // verus!
