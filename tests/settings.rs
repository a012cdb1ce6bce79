use tugger_apple_codesign::flags::{FORCE_EXPIRATION, FORCE_HARD, RESTRICT};
use tugger_apple_codesign::scope::{
    SettingsScope, CPU_TYPE_ARM, CPU_TYPE_ARM64, CPU_TYPE_ARM64_32, CPU_TYPE_X86_64,
};
use tugger_apple_codesign::settings::SigningSettings;
use tugger_apple_codesign::error::AppleCodesignError;

#[test]
fn parse_settings_scope() {
    assert_eq!(SettingsScope::try_from("@main").unwrap(), SettingsScope::Main);
    assert_eq!(SettingsScope::try_from("@0").unwrap(), SettingsScope::MultiArchIndex(0));
    assert_eq!(SettingsScope::try_from("@42").unwrap(), SettingsScope::MultiArchIndex(42));
    assert_eq!(
        SettingsScope::try_from("@[cpu_type=7]").unwrap(),
        SettingsScope::MultiArchCpuType(7)
    );
    assert_eq!(
        SettingsScope::try_from("@[cpu_type=arm]").unwrap(),
        SettingsScope::MultiArchCpuType(CPU_TYPE_ARM)
    );
    assert_eq!(
        SettingsScope::try_from("@[cpu_type=arm64]").unwrap(),
        SettingsScope::MultiArchCpuType(CPU_TYPE_ARM64)
    );
    assert_eq!(
        SettingsScope::try_from("@[cpu_type=arm64_32]").unwrap(),
        SettingsScope::MultiArchCpuType(CPU_TYPE_ARM64_32)
    );
    assert_eq!(
        SettingsScope::try_from("@[cpu_type=x86_64]").unwrap(),
        SettingsScope::MultiArchCpuType(CPU_TYPE_X86_64)
    );
    assert_eq!(
        SettingsScope::try_from("foo/bar").unwrap(),
        SettingsScope::Path("foo/bar".into())
    );
    assert_eq!(
        SettingsScope::try_from("foo/bar@0").unwrap(),
        SettingsScope::PathMultiArchIndex("foo/bar".into(), 0)
    );
    assert_eq!(
        SettingsScope::try_from("foo/bar@[cpu_type=7]").unwrap(),
        SettingsScope::PathMultiArchCpuType("foo/bar".into(), 7_u32)
    );
}

#[test]
fn parse_settings_scope_errors() {
    for bad in ["@", "@main2", "@[cpu_type]", "@[cpu=7]", "@[cpu_type=mips]", "@[cpu_type=1=2]", "a@b", "@-1"] {
        assert_eq!(
            SettingsScope::try_from(bad),
            Err(AppleCodesignError::ParseSettingsScope(bad.to_string())),
            "{}",
            bad
        );
    }
    assert_eq!(SettingsScope::try_from("@+5").unwrap(), SettingsScope::MultiArchIndex(5));
    assert!(SettingsScope::try_from("@[cpu_type=4294967296]").is_err());
}

#[test]
fn scope_string_round_trip() {
    let scopes = vec![
        SettingsScope::Main,
        SettingsScope::Path("Contents/MacOS/main".into()),
        SettingsScope::MultiArchIndex(3),
        SettingsScope::MultiArchCpuType(CPU_TYPE_ARM64),
        SettingsScope::PathMultiArchIndex("a/b".into(), 12),
        SettingsScope::PathMultiArchCpuType("x".into(), 4294967295),
    ];
    for s in scopes {
        let text = s.to_scope_string();
        assert_eq!(SettingsScope::try_from(text.as_str()).unwrap(), s, "{}", text);
    }
    assert_eq!(SettingsScope::MultiArchCpuType(7).to_scope_string(), "@[cpu_type=7]");
    assert_eq!(SettingsScope::PathMultiArchIndex("p".into(), 10).to_scope_string(), "p@10");
}

#[test]
fn as_nested_macho_settings() {
    let mut main_settings = SigningSettings::default();
    main_settings.set_binary_identifier(SettingsScope::Main, "ident");
    main_settings.set_code_signature_flags(SettingsScope::Main, FORCE_EXPIRATION);

    main_settings.set_code_signature_flags(SettingsScope::MultiArchIndex(0), FORCE_HARD);
    main_settings.set_code_signature_flags(SettingsScope::MultiArchCpuType(CPU_TYPE_X86_64), RESTRICT);
    main_settings.set_entitlements_xml(SettingsScope::MultiArchIndex(0), "index_0");
    main_settings.set_entitlements_xml(SettingsScope::MultiArchCpuType(CPU_TYPE_X86_64), "cpu_x86_64");

    let macho_settings = main_settings.as_nested_macho_settings(0, CPU_TYPE_ARM64);
    assert_eq!(
        macho_settings.binary_identifier(&SettingsScope::Main).map(|s| s.as_str()),
        Some("ident")
    );
    assert_eq!(macho_settings.code_signature_flags(&SettingsScope::Main), Some(FORCE_HARD));
    assert_eq!(
        macho_settings.entitlements_xml(&SettingsScope::Main).map(|s| s.as_str()),
        Some("index_0")
    );

    let macho_settings = main_settings.as_nested_macho_settings(0, CPU_TYPE_X86_64);
    assert_eq!(
        macho_settings.binary_identifier(&SettingsScope::Main).map(|s| s.as_str()),
        Some("ident")
    );
    assert_eq!(macho_settings.code_signature_flags(&SettingsScope::Main), Some(RESTRICT));
    assert_eq!(
        macho_settings.entitlements_xml(&SettingsScope::Main).map(|s| s.as_str()),
        Some("cpu_x86_64")
    );
}

#[test]
fn nested_macho_settings_keep_main_without_slice_entries() {
    let mut s = SigningSettings::default();
    s.set_entitlements_xml(SettingsScope::Main, "main");
    s.set_entitlements_xml(SettingsScope::MultiArchIndex(1), "index_1");
    let d = s.as_nested_macho_settings(0, CPU_TYPE_ARM64);
    assert_eq!(d.entitlements_xml(&SettingsScope::Main).map(|s| s.as_str()), Some("main"));
    assert_eq!(d.entitlements().len(), 1);
    let d = s.as_nested_macho_settings(1, CPU_TYPE_ARM64);
    assert_eq!(d.entitlements_xml(&SettingsScope::Main).map(|s| s.as_str()), Some("index_1"));
    assert_eq!(d.entitlements_xml(&SettingsScope::MultiArchIndex(1)), None);
}

fn entitlement(s: &SigningSettings, scope: SettingsScope) -> Option<String> {
    s.entitlements_xml(&scope).cloned()
}

#[test]
fn as_bundle_macho_settings() {
    let mut main_settings = SigningSettings::default();
    main_settings.set_entitlements_xml(SettingsScope::Main, "main");
    main_settings.set_entitlements_xml(SettingsScope::Path("Contents/MacOS/main".into()), "main_exe");
    main_settings.set_entitlements_xml(
        SettingsScope::PathMultiArchIndex("Contents/MacOS/main".into(), 0),
        "main_exe_index_0",
    );
    main_settings.set_entitlements_xml(
        SettingsScope::PathMultiArchCpuType("Contents/MacOS/main".into(), CPU_TYPE_X86_64),
        "main_exe_x86_64",
    );

    let macho_settings = main_settings.as_bundle_macho_settings("Contents/MacOS/main");
    assert_eq!(
        macho_settings.entitlements_xml(&SettingsScope::Main).map(|s| s.as_str()),
        Some("main_exe")
    );
    assert_eq!(macho_settings.entitlements().len(), 3);
    assert_eq!(entitlement(&macho_settings, SettingsScope::Main), Some("main_exe".into()));
    assert_eq!(
        entitlement(&macho_settings, SettingsScope::MultiArchIndex(0)),
        Some("main_exe_index_0".into())
    );
    assert_eq!(
        entitlement(&macho_settings, SettingsScope::MultiArchCpuType(CPU_TYPE_X86_64)),
        Some("main_exe_x86_64".into())
    );
}

#[test]
fn as_nested_bundle_settings() {
    let mut main_settings = SigningSettings::default();
    main_settings.set_entitlements_xml(SettingsScope::Main, "main");
    main_settings.set_entitlements_xml(SettingsScope::Path("Contents/MacOS/main".into()), "main_exe");
    main_settings.set_entitlements_xml(SettingsScope::Path("Contents/MacOS/nested.app".into()), "bundle");
    main_settings.set_entitlements_xml(
        SettingsScope::PathMultiArchIndex("Contents/MacOS/nested.app".into(), 0),
        "bundle_index_0",
    );
    main_settings.set_entitlements_xml(
        SettingsScope::PathMultiArchCpuType("Contents/MacOS/nested.app".into(), CPU_TYPE_X86_64),
        "bundle_x86_64",
    );
    main_settings.set_entitlements_xml(
        SettingsScope::Path("Contents/MacOS/nested.app/Contents/MacOS/nested".into()),
        "nested_main_exe",
    );
    main_settings.set_entitlements_xml(
        SettingsScope::PathMultiArchIndex("Contents/MacOS/nested.app/Contents/MacOS/nested".into(), 0),
        "nested_main_exe_index_0",
    );
    main_settings.set_entitlements_xml(
        SettingsScope::PathMultiArchCpuType(
            "Contents/MacOS/nested.app/Contents/MacOS/nested".into(),
            CPU_TYPE_X86_64,
        ),
        "nested_main_exe_x86_64",
    );

    let bundle_settings = main_settings.as_nested_bundle_settings("Contents/MacOS/nested.app");
    assert_eq!(
        bundle_settings.entitlements_xml(&SettingsScope::Main).map(|s| s.as_str()),
        Some("bundle")
    );
    assert_eq!(
        bundle_settings
            .entitlements_xml(&SettingsScope::Path("Contents/MacOS/nested".into()))
            .map(|s| s.as_str()),
        Some("nested_main_exe")
    );
    assert_eq!(bundle_settings.entitlements().len(), 6);
    assert_eq!(entitlement(&bundle_settings, SettingsScope::Main), Some("bundle".into()));
    assert_eq!(
        entitlement(&bundle_settings, SettingsScope::MultiArchIndex(0)),
        Some("bundle_index_0".into())
    );
    assert_eq!(
        entitlement(&bundle_settings, SettingsScope::MultiArchCpuType(CPU_TYPE_X86_64)),
        Some("bundle_x86_64".into())
    );
    assert_eq!(
        entitlement(&bundle_settings, SettingsScope::Path("Contents/MacOS/nested".into())),
        Some("nested_main_exe".into())
    );
    assert_eq!(
        entitlement(
            &bundle_settings,
            SettingsScope::PathMultiArchIndex("Contents/MacOS/nested".into(), 0)
        ),
        Some("nested_main_exe_index_0".into())
    );
    assert_eq!(
        entitlement(
            &bundle_settings,
            SettingsScope::PathMultiArchCpuType("Contents/MacOS/nested".into(), CPU_TYPE_X86_64)
        ),
        Some("nested_main_exe_x86_64".into())
    );
}

#[test]
fn code_signature_flag_updates() {
    let mut s = SigningSettings::default();
    assert_eq!(s.add_code_signature_flags(SettingsScope::Main, FORCE_HARD), FORCE_HARD);
    assert_eq!(s.add_code_signature_flags(SettingsScope::Main, RESTRICT), FORCE_HARD | RESTRICT);
    assert_eq!(s.remove_code_signature_flags(SettingsScope::Main, FORCE_HARD), RESTRICT);
    assert_eq!(s.code_signature_flags(&SettingsScope::Main), Some(RESTRICT));
}

#[test]
fn time_stamp_url_is_validated() {
    let mut s = SigningSettings::default();
    assert!(s.set_time_stamp_url("not a url").is_err());
    assert!(s.time_stamp_url().is_none());
    assert!(s.set_time_stamp_url("http://timestamp.apple.com/ts01").is_ok());
    assert_eq!(s.time_stamp_url().map(|u| u.as_str()), Some("http://timestamp.apple.com/ts01"));
}

#[test]
fn designated_requirement_expression() {
    let mut s = SigningSettings::default();
    assert_eq!(s.designated_requirement(&SettingsScope::Main), None);
    s.set_designated_requirement_expression(SettingsScope::Main, &[0, 0, 0, 3, 1]);
    assert_eq!(s.designated_requirement(&SettingsScope::Main), Some(&vec![vec![0u8, 0, 0, 3, 1]]));
    let d = s.as_nested_macho_settings(0, CPU_TYPE_ARM64);
    assert_eq!(d.designated_requirement(&SettingsScope::Main), Some(&vec![vec![0u8, 0, 0, 3, 1]]));
}
