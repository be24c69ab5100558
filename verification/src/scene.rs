//! Default values of the objects of a scene.

use vstd::prelude::*;

verus! {

/// Objects that have a name before they are given one.
pub trait DefaultName {
    /// Returns the default name.
    fn default_name() -> String;
}

/// A material of a scene, known by its name.
pub struct Material {
    /// The name of the material.
    pub name: String,
}

impl DefaultName for Material {
    fn default_name() -> (name: String)
        ensures
            name@ == "Untitled Material"@,
    {
        "Untitled Material".to_string()
    }
}

/// Associated functions for getting default values for material structures
pub trait DefaultMaterial {

}

impl DefaultMaterial for Material {

}

impl Default for Material {
    fn default() -> (material: Material)
        ensures
            material.name@ == "Untitled Material"@,
    {
        Material { name: Material::default_name() }
    }
}

} // verus!
