use translator::dependencies::{
    library_stem, parse_dependency_spec, parse_module_bazel, parse_targets_manifest, Dependencies,
    Dependency, DependencyError, Library,
};
use translator::model::{ExternalDependency, ModuleDependency};

fn greet(name: &str, version: &str) -> Dependency {
    Dependency {
        module: ModuleDependency { name: name.to_string(), version: Some(version.to_string()) },
        libraries: vec![Library {
            stem: format!("lib{name}"),
            target: format!("lib{name}_la"),
            shared: true,
        }],
    }
}

#[test]
fn library_stem_drops_every_extension() {
    for (path, stem) in [
        ("lib/libgreet.so", "libgreet"),
        ("lib/libgreet.so.1.0.0", "libgreet"),
        ("libgreet.a", "libgreet"),
        ("libgreet.la", "libgreet"),
    ] {
        assert_eq!(library_stem(path).as_deref(), Some(stem), "{path}");
    }
}

#[test]
fn no_dependencies_means_no_sysroot_and_no_environment() {
    let deps = Dependencies::new();
    assert!(deps.modules().is_empty());
    assert!(deps.configure_env().is_empty());
    assert_eq!(deps.resolve_name("m", &["/usr/lib".to_string()]), None);
}

#[test]
fn a_link_input_inside_the_sysroot_resolves_to_the_module_that_installed_it() {
    let mut deps = Dependencies::with_sysroot("/scratch/sysroot");
    let i = deps.add(greet("greet", "1.2"));
    assert_eq!(i, 0);
    deps.record_origin("usr/local/lib/libgreet.so", i).unwrap();
    deps.record_origin("usr/local/include/greet.h", i).unwrap();
    let libdir = "/scratch/sysroot/usr/local/lib".to_string();
    let expected = ExternalDependency {
        module: "greet".to_string(),
        target: "libgreet_la".to_string(),
        shared: true,
    };
    assert_eq!(deps.resolve_name("greet", &[libdir.clone()]), Some(expected.clone()));
    assert_eq!(deps.resolve_path("/scratch/sysroot/usr/local/lib/libgreet.so"), Some(expected.clone()));
    assert_eq!(deps.resolve_name("greet", &["/usr/lib".to_string()]), None);
    assert_eq!(deps.resolve_name("curl", &[libdir]), None);
    assert_eq!(
        deps.modules(),
        vec![ModuleDependency { name: "greet".to_string(), version: Some("1.2".to_string()) }]
    );
    assert_eq!(
        deps.shared_library_path(&expected),
        Some("/scratch/sysroot/usr/local/lib/libgreet.so".to_string())
    );
}

#[test]
fn two_dependencies_installing_one_path_is_an_error_not_an_order() {
    let mut deps = Dependencies::with_sysroot("/scratch/sysroot");
    let a = deps.add(greet("greet", "1.0"));
    let b = deps.add(greet("shout", "1.0"));
    deps.record_origin("usr/local/include/greet.h", a).unwrap();
    deps.record_origin("usr/local/include/shout.h", b).unwrap();
    let err = deps.record_origin("usr/local/include/greet.h", b).err().expect("must refuse");
    assert_eq!(
        err,
        DependencyError::Conflict {
            path: "usr/local/include/greet.h".to_string(),
            first: "greet".to_string(),
            second: "shout".to_string(),
        }
    );
    let text = err.message();
    assert!(text.contains("greet") && text.contains("shout") && text.contains("greet.h"), "{text}");
    assert_eq!(
        text,
        "dependencies greet and shout both install usr/local/include/greet.h; two modules cannot own one installed file"
    );
}

#[test]
fn a_file_recorded_twice_is_refused_whoever_records_it() {
    let mut deps = Dependencies::with_sysroot("/s");
    let a = deps.add(greet("greet", "1.0"));
    deps.record_origin("usr/local/lib/libgreet.a", a).unwrap();
    assert_eq!(
        deps.record_origin("usr/local/lib/libgreet.a", a),
        Err(DependencyError::Conflict {
            path: "usr/local/lib/libgreet.a".to_string(),
            first: "greet".to_string(),
            second: "greet".to_string(),
        })
    );
}

#[test]
fn the_configure_environment_points_into_the_sysroot() {
    let deps = Dependencies::with_sysroot("/s");
    assert_eq!(
        deps.configure_env(),
        vec![
            ("PKG_CONFIG_LIBDIR".to_string(), "/s/usr/local/lib/pkgconfig".to_string()),
            ("PKG_CONFIG_SYSROOT_DIR".to_string(), "/s".to_string()),
            ("CPPFLAGS".to_string(), "-I/s/usr/local/include".to_string()),
            ("LDFLAGS".to_string(), "-L/s/usr/local/lib".to_string()),
        ]
    );
}

#[test]
fn a_static_archive_resolves_when_no_shared_library_is_installed() {
    let mut deps = Dependencies::with_sysroot("/s");
    let a = deps.add(Dependency {
        module: ModuleDependency { name: "z".to_string(), version: None },
        libraries: vec![Library { stem: "libz".to_string(), target: "z".to_string(), shared: false }],
    });
    deps.record_origin("usr/local/lib/libz.a", a).unwrap();
    assert_eq!(
        deps.resolve_name("z", &["/s/usr/local/lib".to_string()]),
        Some(ExternalDependency { module: "z".to_string(), target: "z".to_string(), shared: false })
    );
}

#[test]
fn a_dependency_spec_splits_at_the_colon() {
    assert_eq!(
        parse_dependency_spec("/m/greet:/i/greet"),
        Ok(("/m/greet".to_string(), "/i/greet".to_string()))
    );
    assert_eq!(
        parse_dependency_spec("nocolon"),
        Err(DependencyError::Spec { spec: "nocolon".to_string() })
    );
}

#[test]
fn a_module_file_gives_its_name_and_version() {
    let text = "module(\n    name = \"greet\",\n    version = \"1.2\",\n)\n";
    assert_eq!(
        parse_module_bazel(text),
        Some(ModuleDependency { name: "greet".to_string(), version: Some("1.2".to_string()) })
    );
    assert_eq!(parse_module_bazel("bazel_dep(name = \"x\")\n"), None);
}

#[test]
fn a_targets_manifest_lists_stem_target_and_kind() {
    let libs = parse_targets_manifest("binary greet-demo\nlibrary libgreet_la libgreet shared\n\nlibrary z libz static\n");
    assert_eq!(
        libs,
        vec![
            Library { stem: "libgreet".to_string(), target: "libgreet_la".to_string(), shared: true },
            Library { stem: "libz".to_string(), target: "z".to_string(), shared: false },
        ]
    );
}

#[test]
fn a_name_resolves_in_the_first_search_directory_that_holds_it_shared_first() {
    let mut deps = Dependencies::with_sysroot("/s");
    let a = deps.add(Dependency {
        module: ModuleDependency { name: "za".to_string(), version: None },
        libraries: vec![Library { stem: "libz".to_string(), target: "z_static".to_string(), shared: false }],
    });
    let b = deps.add(Dependency {
        module: ModuleDependency { name: "zb".to_string(), version: None },
        libraries: vec![Library { stem: "libz".to_string(), target: "z_shared".to_string(), shared: true }],
    });
    deps.record_origin("one/libz.a", a).unwrap();
    deps.record_origin("one/libz.so", b).unwrap();
    deps.record_origin("two/libz.so", a).unwrap();
    let dirs = vec!["/elsewhere".to_string(), "/s/one".to_string(), "/s/two".to_string()];
    assert_eq!(
        deps.resolve_name("z", &dirs),
        Some(ExternalDependency { module: "zb".to_string(), target: "z_shared".to_string(), shared: true })
    );
    assert_eq!(deps.resolve_name("z", &dirs[2..].to_vec()).map(|e| e.module), Some("za".to_string()));
}

#[test]
fn each_dependency_error_reads_as_a_sentence() {
    assert_eq!(
        DependencyError::Spec { spec: "nocolon".to_string() }.message(),
        "--dependency \"nocolon\": expected <converted module tree>:<install tree>"
    );
    assert_eq!(
        DependencyError::Spec { spec: "a\"b".to_string() }.message(),
        "--dependency \"a\\\"b\": expected <converted module tree>:<install tree>"
    );
    assert_eq!(
        DependencyError::ModuleTree {
            path: "/m/MODULE.bazel".to_string(),
            reason: "No such file or directory (os error 2)".to_string(),
        }
        .message(),
        "cannot read the converted dependency's /m/MODULE.bazel: No such file or directory (os error 2)"
    );
}
