use buffa_codegen::reflect::{CodeGenConfig, ReflectMode};

#[test]
fn reflect_mode_maps_to_config_flags() {
    let mut c = CodeGenConfig::default();

    ReflectMode::Off.apply(&mut c);
    assert!(!c.generate_reflection && !c.generate_reflection_vtable);

    ReflectMode::Bridge.apply(&mut c);
    assert!(c.generate_reflection && !c.generate_reflection_vtable);

    ReflectMode::VTable.apply(&mut c);
    assert!(c.generate_reflection && c.generate_reflection_vtable);
}

#[test]
fn reflect_mode_default_is_bridge() {
    assert_eq!(ReflectMode::default(), ReflectMode::Bridge);
    let mut c = CodeGenConfig {
        generate_reflection: false,
        generate_reflection_vtable: true,
    };
    ReflectMode::default().apply(&mut c);
    assert!(c.generate_reflection && !c.generate_reflection_vtable);
}
