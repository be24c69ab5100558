//! Symbolic choices that a material description can make.

use vstd::prelude::*;

verus! {

/// Preferred rendering pipeline to use for a material.
#[derive(Debug, Clone, Copy, PartialEq, Eq, Structural)]
pub enum RenderMethod {
    /// Traditional forward rendering, suitable for non-opaque objects.
    Forward,
    /// Deferred rendering, suitable for most opaque objects.
    Deferred,
    /// Forward rendering with lights isolated into screen-space tiles.
    ForwardPlus,
    /// A variation on `ForwardPlus` that subdivides the scene in 3D space.
    Clustered,
}

/// Which shader should be used for a material.
#[derive(Debug, Clone, Copy, PartialEq, Eq, Structural)]
pub enum MaterialShader {
    /// All-in-one lighting shader.
    Uber,
    /// Shader optimized for mirror-like surfaces.
    Mirror,
    /// Shader optimized for metallic surfaces.
    Metal,
    /// Shader optimized for simple, flat surfaces.
    Matte,
    /// Shader optimized for subsurface scattering effects.
    Substrate,
    /// Shader optimized for transparent objects.
    Glass,
    /// Shader optimized for hair rendering.
    Hair,
}

} // verus!
