use nyaland::text::trim;
use nyaland::android::{
    apksigner_sign_args, apksigner_verify_args, build_environment, build_tool_paths,
    debug_keystore_path, jarsigner_args, zipalign_args,
};
use nyaland::android::{
    abi_target, apk_candidates, choose_apk_path, device_status, newest_build_tools, parse_devices,
    replace_all_exec, signed_apk_paths, tauri_build_args, text_lines, tool_search_path,
    DeviceStatus, env_check, EnvCheck,
};

fn strings(v: &[&str]) -> Vec<String> {
    v.iter().map(|s| s.to_string()).collect()
}

#[test]
fn abi_targets() {
    assert_eq!(abi_target("all"), None);
    assert_eq!(abi_target("arm64"), Some("aarch64".to_string()));
    assert_eq!(abi_target("arm64-v8a"), Some("aarch64".to_string()));
    assert_eq!(abi_target("armeabi-v7a"), Some("armv7".to_string()));
    assert_eq!(abi_target("x86"), Some("i686".to_string()));
    assert_eq!(abi_target("x86_64"), Some("x86_64".to_string()));
    assert_eq!(abi_target("riscv64"), Some("riscv64".to_string()));
}

#[test]
fn default_build_args() {
    let args = tauri_build_args(false, "all", false, false, false, &Vec::new());
    assert_eq!(args, strings(&["tauri", "android", "build", "--apk"]));
}

#[test]
fn full_build_args() {
    let extra = strings(&["--verbose"]);
    let args = tauri_build_args(true, "arm64", false, true, true, &extra);
    assert_eq!(
        args,
        strings(&["tauri", "android", "build", "--debug", "--target", "aarch64", "--aab", "--split-per-abi", "--verbose"])
    );
}

#[test]
fn apk_paths() {
    let rel = apk_candidates(true);
    assert_eq!(rel.len(), 4);
    assert_eq!(rel[0], "src-tauri/gen/android/app/build/outputs/apk/universal/release/app-universal-release-unsigned.apk");
    let dbg = apk_candidates(false);
    assert_eq!(dbg, strings(&[
        "src-tauri/gen/android/app/build/outputs/apk/universal/debug/app-universal-debug.apk",
        "src-tauri/gen/android/app/build/outputs/apk/debug/app-debug.apk",
    ]));
    assert_eq!(choose_apk_path(&rel, &vec![false, true, true, false]), rel[1]);
    assert_eq!(choose_apk_path(&rel, &vec![false, false, false, false]), rel[0]);
}

#[test]
fn signing_names() {
    let (aligned, signed) = signed_apk_paths("out/app-universal-release-unsigned.apk");
    assert_eq!(aligned, "out/app-universal-release-zipaligned.apk");
    assert_eq!(signed, "out/app-universal-release-signed.apk");
    let (a, s) = signed_apk_paths("app-debug.apk");
    assert_eq!(a, "app-debug.apk");
    assert_eq!(s, "app-debug.apk");
}

#[test]
fn replace_matches_std() {
    for (s, from, to) in [("aaa", "aa", "b"), ("x-unsigned-unsigned", "-unsigned", "-s"), ("", "a", "b"), ("abc", "abc", "")] {
        assert_eq!(replace_all_exec(s, from, to), s.replace(from, to));
    }
}

#[test]
fn newest_tools() {
    assert_eq!(newest_build_tools(&strings(&["34.0.0", "36.0.0", "debian", "35.0.1"])), Some("36.0.0".to_string()));
    assert_eq!(newest_build_tools(&strings(&["debian", ""])), None);
    assert_eq!(newest_build_tools(&Vec::new()), None);
}

#[test]
fn lines_like_std() {
    for t in ["a\nb", "a\r\nb\r\n", "", "\n", "a\n\nb\n", "x\r", "a\rb\n"] {
        let expected: Vec<String> = t.lines().map(|l| l.to_string()).collect();
        assert_eq!(text_lines(t), expected);
    }
}

#[test]
fn devices() {
    let out = "List of devices attached\nemulator-5554\tdevice\nR58M\tunauthorized\r\n\n  \nbroken line\n  dev2\toffline  \n";
    assert_eq!(
        parse_devices(out),
        vec![
            ("emulator-5554".to_string(), "device".to_string()),
            ("R58M".to_string(), "unauthorized".to_string()),
            ("dev2".to_string(), "offline".to_string()),
        ]
    );
    assert!(parse_devices("").is_empty());
    assert!(parse_devices("List of devices attached\n").is_empty());
}

#[test]
fn device_states() {
    assert_eq!(device_status("device"), DeviceStatus::Ready);
    assert_eq!(device_status("offline"), DeviceStatus::Offline);
    assert_eq!(device_status("unauthorized"), DeviceStatus::Unauthorized);
    assert_eq!(device_status("recovery"), DeviceStatus::Other);
}

#[test]
fn search_path() {
    assert_eq!(
        tool_search_path("/usr/bin"),
        "/usr/lib/jvm/java-21-openjdk/bin:/opt/android-sdk/cmdline-tools/latest/bin:/opt/android-sdk/platform-tools:/opt/android-sdk/ndk/27.0.12077973:/usr/bin"
    );
}

#[test]
fn environment_checks() {
    assert_eq!(env_check(Some("/opt/android-sdk"), "/opt/android-sdk"), EnvCheck::Expected);
    assert_eq!(env_check(Some("/usr/sdk"), "/opt/android-sdk"), EnvCheck::Unexpected);
    assert_eq!(env_check(None, "/opt/android-sdk"), EnvCheck::Missing);
}

#[test]
fn trim_matches_std() {
    for s in ["", "   ", " a b ", "\t\r\nx\u{85}", "\u{3000}y\u{2009}\u{a0}", "z\u{200b}", "\u{feff}q"] {
        assert_eq!(trim(s), s.trim());
    }
}

#[test]
fn build_environment_keeps_user_values() {
    let env = build_environment(Some("/my/jdk"), None, None, Some("/bin"));
    assert_eq!(env[0], ("JAVA_HOME".to_string(), "/my/jdk".to_string()));
    assert_eq!(env[1], ("ANDROID_HOME".to_string(), "/opt/android-sdk".to_string()));
    assert_eq!(env[2], ("ANDROID_NDK_HOME".to_string(), "/opt/android-sdk/ndk/27.0.12077973".to_string()));
    assert_eq!(
        env[3].1,
        "/usr/lib/jvm/java-21-openjdk/bin:/opt/android-sdk/cmdline-tools/latest/bin:/opt/android-sdk/platform-tools:/opt/android-sdk/ndk/27.0.12077973:/bin"
    );
    assert_eq!(build_environment(None, None, None, None)[0].1, "/usr/lib/jvm/java-21-openjdk");
}

#[test]
fn signing_commands() {
    assert_eq!(debug_keystore_path(Some("/home/u")), "/home/u/.android/debug.keystore");
    assert_eq!(debug_keystore_path(None), "/home/meme/.android/debug.keystore");
    assert_eq!(
        build_tool_paths("/sdk", "34.0.0"),
        ("/sdk/build-tools/34.0.0/zipalign".to_string(), "/sdk/build-tools/34.0.0/apksigner".to_string())
    );
    assert_eq!(zipalign_args("a.apk", "b.apk"), vec!["-f", "4", "a.apk", "b.apk"]);
    assert_eq!(
        apksigner_sign_args("k", "s.apk", "z.apk"),
        vec!["sign", "--ks", "k", "--ks-pass", "pass:android", "--key-pass", "pass:android", "--out", "s.apk", "z.apk"]
    );
    assert_eq!(apksigner_verify_args("s.apk"), vec!["verify", "s.apk"]);
    assert_eq!(
        jarsigner_args("k", "z.apk"),
        vec!["-keystore", "k", "-storepass", "android", "z.apk", "androiddebugkey"]
    );
}
