//! Per-message reflection mode, selected at code-generation time.

use vstd::prelude::*;

verus! {

/// Per-message reflection mode. Code written against `foo.reflect()` works
/// the same in `Bridge` and `VTable` mode.
#[derive(Clone, Copy, Debug, PartialEq, Eq, Structural)]
#[non_exhaustive]
pub enum ReflectMode {
    /// No reflection impl is emitted.
    Off,
    /// Reflection boxes a dynamic message from an encode/decode round trip.
    Bridge,
    /// Reflection borrows the struct directly through a generated vtable.
    VTable,
}

impl Default for ReflectMode {
    /// `Bridge`.
    fn default() -> (r: ReflectMode)
        ensures
            r == ReflectMode::Bridge,
    {
        ReflectMode::Bridge
    }
}

/// The reflection switches of the code generator's configuration.
#[derive(Clone, Copy, Debug, PartialEq, Eq, Structural, Default)]
pub struct CodeGenConfig {
    /// Emit `Reflectable` impls.
    pub generate_reflection: bool,
    /// Emit them through a generated vtable rather than the bridge.
    pub generate_reflection_vtable: bool,
}

impl ReflectMode {
    /// Set the configuration's reflection switches for this mode: `Off`
    /// clears both, `Bridge` sets reflection alone, `VTable` sets both.
    pub fn apply(self, config: &mut CodeGenConfig)
        ensures
            final(config).generate_reflection == (self != ReflectMode::Off),
            final(config).generate_reflection_vtable == (self == ReflectMode::VTable),
    {
        match self {
            ReflectMode::Off => {
                config.generate_reflection = false;
                config.generate_reflection_vtable = false;
            },
            ReflectMode::Bridge => {
                config.generate_reflection = true;
                config.generate_reflection_vtable = false;
            },
            ReflectMode::VTable => {
                config.generate_reflection = true;
                config.generate_reflection_vtable = true;
            },
        }
    }
}

} // verus!
