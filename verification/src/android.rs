//! The decisions of the Android build helper: the arguments of the build command, where
//! the built package lies, the names of the aligned and signed packages, which build-tools
//! release to use, and the devices that `adb devices` lists.
use vstd::prelude::*;
use crate::magnet::{split_char, subvec};
use crate::order::{lex_le, lemma_lex_total, lemma_lex_trans, string_le};
use crate::text::{
    chars_of, find_exec, find_first, lemma_find_from_range, str_equal, string_of, string_of_range,
    trim, trimmed,
};

verus! {

/// Whether a character is numeric, as `char::is_numeric` decides (Unicode categories).
pub uninterp spec fn numeric_char(c: char) -> bool;

/// Calls `char::is_numeric` (std). Claimed: the answer is `numeric_char` of the character;
/// and, as the Unicode categories it goes by place them, the ASCII digits `0`..`9` are
/// numeric and no other ASCII character is.
#[verifier::external_body]
fn is_numeric_char(c: char) -> (r: bool)
    ensures
        r == numeric_char(c),
        '0' <= c <= '9' ==> r,
        (c as u32) < 128 && !('0' <= c <= '9') ==> !r,
{
    c.is_numeric()
}

/// The Rust target that an ABI name selects; `None` for `all` (every target).
pub open spec fn target_for(abi: Seq<char>) -> Option<Seq<char>> {
    if abi == "all"@ {
        None
    } else if abi == "arm64"@ || abi == "arm64-v8a"@ {
        Some("aarch64"@)
    } else if abi == "armv7"@ || abi == "armeabi-v7a"@ {
        Some("armv7"@)
    } else if abi == "i686"@ || abi == "x86"@ {
        Some("i686"@)
    } else if abi == "x86_64"@ {
        Some("x86_64"@)
    } else {
        Some(abi)
    }
}

/// The arguments handed to `npx` to build the app.
pub open spec fn build_args(
    debug: bool,
    abi: Seq<char>,
    apk: bool,
    aab: bool,
    split_per_abi: bool,
    extra: Seq<Seq<char>>,
) -> Seq<Seq<char>> {
    seq!["tauri"@, "android"@, "build"@] + (if debug {
        seq!["--debug"@]
    } else {
        seq![]
    }) + (match target_for(abi) {
        Some(t) => seq!["--target"@, t],
        None => seq![],
    }) + (if aab {
        seq!["--aab"@]
    } else if apk || !aab {
        seq!["--apk"@]
    } else {
        seq![]
    }) + (if split_per_abi {
        seq!["--split-per-abi"@]
    } else {
        seq![]
    }) + extra
}

/// Where the built package may lie, in the order they are tried.
pub open spec fn apk_candidates_spec(release: bool) -> Seq<Seq<char>> {
    if release {
        seq![
            "src-tauri/gen/android/app/build/outputs/apk/universal/release/app-universal-release-unsigned.apk"@,
            "src-tauri/gen/android/app/build/outputs/apk/release/app-release.apk"@,
            "src-tauri/gen/android/app/build/outputs/apk/universal/debug/app-universal-debug.apk"@,
            "src-tauri/gen/android/app/build/outputs/apk/debug/app-debug.apk"@,
        ]
    } else {
        seq![
            "src-tauri/gen/android/app/build/outputs/apk/universal/debug/app-universal-debug.apk"@,
            "src-tauri/gen/android/app/build/outputs/apk/debug/app-debug.apk"@,
        ]
    }
}

/// The first index `>= i` whose flag is set.
pub open spec fn first_set_from(flags: Seq<bool>, i: int) -> Option<int>
    decreases flags.len() - i,
{
    if i < 0 || i >= flags.len() {
        None
    } else if flags[i] {
        Some(i)
    } else {
        first_set_from(flags, i + 1)
    }
}

/// `s` with every occurrence of `from` (left to right, not overlapping) replaced by `to`.
pub open spec fn replace_all(s: Seq<char>, from: Seq<char>, to: Seq<char>) -> Seq<char>
    decreases s.len(),
{
    if from.len() == 0 {
        s
    } else {
        match find_first(s, from) {
            Some(i) => {
                proof {
                    lemma_find_from_range(s, from, 0);
                }
                s.subrange(0, i) + to + replace_all(
                    s.subrange(i + from.len(), s.len() as int),
                    from,
                    to,
                )
            },
            None => s,
        }
    }
}

/// The name starts with a numeric character (a release number).
pub open spec fn starts_numeric(n: Seq<char>) -> bool {
    n.len() > 0 && numeric_char(n[0])
}

/// `s` without one trailing carriage return.
pub open spec fn strip_cr(s: Seq<char>) -> Seq<char> {
    if s.len() > 0 && s.last() == '\r' {
        s.drop_last()
    } else {
        s
    }
}

/// The lines of a text, as `str::lines` yields them: split at `\n`, a `\r` before the
/// `\n` dropped, and no empty line after a final line ending.
pub open spec fn lines_of(s: Seq<char>) -> Seq<Seq<char>> {
    let pieces = split_char(s, '\n');
    let ended = pieces.drop_last().map_values(|p: Seq<char>| strip_cr(p));
    if pieces.last().len() == 0 {
        ended
    } else {
        ended.push(pieces.last())
    }
}

/// The device and state that a line of `adb devices` lists, if it lists one.
pub open spec fn device_of_line(l: Seq<char>) -> Option<(Seq<char>, Seq<char>)> {
    let t = trimmed(l);
    let parts = split_char(t, '\t');
    if t.len() > 0 && parts.len() >= 2 {
        Some((parts[0], parts[1]))
    } else {
        None
    }
}

/// The devices listed by some lines, in order.
pub open spec fn devices_of(lines: Seq<Seq<char>>) -> Seq<(Seq<char>, Seq<char>)>
    decreases lines.len(),
{
    if lines.len() == 0 {
        seq![]
    } else {
        match device_of_line(lines.last()) {
            Some(d) => devices_of(lines.drop_last()).push(d),
            None => devices_of(lines.drop_last()),
        }
    }
}

/// The devices that the output of `adb devices` lists (its first line is a header).
pub open spec fn devices_listed(output: Seq<char>) -> Seq<(Seq<char>, Seq<char>)> {
    let lines = lines_of(output);
    if lines.len() == 0 {
        seq![]
    } else {
        devices_of(lines.drop_first())
    }
}

/// The tool folders put ahead of the search path.
pub open spec fn tool_dirs() -> Seq<char> {
    "/usr/lib/jvm/java-21-openjdk/bin:/opt/android-sdk/cmdline-tools/latest/bin:/opt/android-sdk/platform-tools:/opt/android-sdk/ndk/27.0.12077973"@
}

/// A device's state as the helper shows it.
#[derive(Debug, Clone, Copy, PartialEq, Eq, Structural)]
pub enum DeviceStatus {
    Ready,
    Offline,
    Unauthorized,
    Other,
}

/// The kind of a state that `adb devices` reports.
pub open spec fn device_status_of(s: Seq<char>) -> DeviceStatus {
    if s == "device"@ {
        DeviceStatus::Ready
    } else if s == "offline"@ {
        DeviceStatus::Offline
    } else if s == "unauthorized"@ {
        DeviceStatus::Unauthorized
    } else {
        DeviceStatus::Other
    }
}

/// The views of a list of strings.
pub open spec fn views(v: Seq<String>) -> Seq<Seq<char>> {
    v.map_values(|s: String| s@)
}

/// The Rust target selected by `abi`.
pub fn abi_target(abi: &str) -> (r: Option<String>)
    ensures
        match target_for(abi@) {
            Some(t) => r matches Some(x) && x@ == t,
            None => r is None,
        },
{
    if str_equal(abi, "all") {
        None
    } else if str_equal(abi, "arm64") || str_equal(abi, "arm64-v8a") {
        Some(String::from_str("aarch64"))
    } else if str_equal(abi, "armv7") || str_equal(abi, "armeabi-v7a") {
        Some(String::from_str("armv7"))
    } else if str_equal(abi, "i686") || str_equal(abi, "x86") {
        Some(String::from_str("i686"))
    } else if str_equal(abi, "x86_64") {
        Some(String::from_str("x86_64"))
    } else {
        Some(String::from_str(abi))
    }
}

/// Appends `s` to a list of strings.
fn push_text(v: &mut Vec<String>, s: &str)
    ensures
        views(final(v)@) == views(old(v)@).push(s@),
{
    let ghost before = v@;
    v.push(String::from_str(s));
    assert(views(v@) =~= views(before).push(s@));
}

/// The arguments handed to `npx` to build the app.
pub fn tauri_build_args(
    debug: bool,
    abi: &str,
    apk: bool,
    aab: bool,
    split_per_abi: bool,
    extra_args: &Vec<String>,
) -> (r: Vec<String>)
    ensures
        views(r@) == build_args(debug, abi@, apk, aab, split_per_abi, views(extra_args@)),
{
    let mut args: Vec<String> = Vec::new();
    assert(views(args@) =~= Seq::<Seq<char>>::empty());
    push_text(&mut args, "tauri");
    push_text(&mut args, "android");
    push_text(&mut args, "build");
    let ghost a0 = views(args@);
    assert(a0 =~= seq!["tauri"@, "android"@, "build"@]);
    if debug {
        push_text(&mut args, "--debug");
    }
    let ghost a1 = views(args@);
    assert(a1 =~= a0 + (if debug { seq!["--debug"@] } else { seq![] }));
    match abi_target(abi) {
        Some(t) => {
            push_text(&mut args, "--target");
            push_text(&mut args, t.as_str());
        },
        None => {},
    }
    let ghost a2 = views(args@);
    assert(a2 =~= a1 + (match target_for(abi@) {
        Some(t) => seq!["--target"@, t],
        None => seq![],
    }));
    if aab {
        push_text(&mut args, "--aab");
    } else if apk || !aab {
        push_text(&mut args, "--apk");
    }
    let ghost a3 = views(args@);
    assert(a3 =~= a2 + (if aab {
        seq!["--aab"@]
    } else if apk || !aab {
        seq!["--apk"@]
    } else {
        seq![]
    }));
    if split_per_abi {
        push_text(&mut args, "--split-per-abi");
    }
    let ghost a4 = views(args@);
    assert(a4 =~= a3 + (if split_per_abi { seq!["--split-per-abi"@] } else { seq![] }));
    let mut i: usize = 0;
    while i < extra_args.len()
        invariant
            i <= extra_args@.len(),
            views(args@) == a4 + views(extra_args@).take(i as int),
        decreases extra_args.len() - i,
    {
        let ghost before = views(args@);
        push_text(&mut args, extra_args[i].as_str());
        assert(views(extra_args@).take(i + 1) =~= views(extra_args@).take(i as int).push(
            extra_args@[i as int]@,
        ));
        assert(views(args@) =~= a4 + views(extra_args@).take(i + 1));
        i = i + 1;
    }
    assert(views(extra_args@).take(extra_args@.len() as int) =~= views(extra_args@));
    args
}

/// Where the built package may lie, in the order they are tried.
pub fn apk_candidates(release: bool) -> (r: Vec<String>)
    ensures
        views(r@) == apk_candidates_spec(release),
{
    let mut v: Vec<String> = Vec::new();
    assert(views(v@) =~= Seq::<Seq<char>>::empty());
    if release {
        push_text(
            &mut v,
            "src-tauri/gen/android/app/build/outputs/apk/universal/release/app-universal-release-unsigned.apk",
        );
        push_text(&mut v, "src-tauri/gen/android/app/build/outputs/apk/release/app-release.apk");
    }
    push_text(
        &mut v,
        "src-tauri/gen/android/app/build/outputs/apk/universal/debug/app-universal-debug.apk",
    );
    push_text(&mut v, "src-tauri/gen/android/app/build/outputs/apk/debug/app-debug.apk");
    assert(views(v@) =~= apk_candidates_spec(release));
    v
}

/// The package to use: the first candidate that exists, or else the first candidate.
pub fn choose_apk_path(candidates: &Vec<String>, exists: &Vec<bool>) -> (r: String)
    requires
        candidates@.len() > 0,
        exists@.len() == candidates@.len(),
    ensures
        match first_set_from(exists@, 0) {
            Some(i) => r@ == candidates@[i]@,
            None => r@ == candidates@[0]@,
        },
{
    let mut i: usize = 0;
    while i < exists.len()
        invariant
            i <= exists@.len(),
            exists@.len() == candidates@.len(),
            first_set_from(exists@, 0) == first_set_from(exists@, i as int),
        decreases exists.len() - i,
    {
        if exists[i] {
            return candidates[i].clone();
        }
        i = i + 1;
    }
    candidates[0].clone()
}

/// `s` with every occurrence of `from` replaced by `to`, as `str::replace` does.
pub fn replace_all_exec(s: &str, from: &str, to: &str) -> (r: String)
    requires
        from@.len() > 0,
    ensures
        r@ == replace_all(s@, from@, to@),
{
    let pat = chars_of(from);
    let mut rest = chars_of(s);
    let mut out = String::new();
    loop
        invariant
            pat@ == from@,
            pat@.len() > 0,
            replace_all(s@, from@, to@) == out@ + replace_all(rest@, from@, to@),
        decreases rest@.len(),
    {
        match find_exec(&rest, &pat) {
            Some(i) => {
                proof {
                    lemma_find_from_range(rest@, from@, 0);
                }
                let n = rest.len();
                let head = string_of_range(&rest, 0, i);
                let next = subvec(&rest, i + pat.len(), n);
                let ghost old_out = out@;
                out.append(head.as_str());
                out.append(to);
                proof {
                    assert(replace_all(rest@, from@, to@) == rest@.subrange(0, i as int) + to@
                        + replace_all(next@, from@, to@));
                    assert(old_out + replace_all(rest@, from@, to@) =~= out@ + replace_all(
                        next@,
                        from@,
                        to@,
                    ));
                }
                rest = next;
            },
            None => {
                let tail = string_of(&rest);
                out.append(tail.as_str());
                return out;
            },
        }
    }
}

/// The names of the aligned and of the signed package made from an unsigned one.
pub fn signed_apk_paths(apk_path: &str) -> (r: (String, String))
    ensures
        r.0@ == replace_all(apk_path@, "-unsigned"@, "-zipaligned"@),
        r.1@ == replace_all(apk_path@, "-unsigned"@, "-signed"@),
{
    proof {
        reveal_strlit("-unsigned");
    }
    let aligned = replace_all_exec(apk_path, "-unsigned", "-zipaligned");
    let signed = replace_all_exec(apk_path, "-unsigned", "-signed");
    (aligned, signed)
}

/// Whether a name starts with a numeric character.
pub fn starts_numeric_exec(name: &String) -> (r: bool)
    ensures
        r == starts_numeric(name@),
{
    let cs = chars_of(name.as_str());
    if cs.len() == 0 {
        false
    } else {
        is_numeric_char(cs[0])
    }
}

/// The newest build-tools release among the folder names: the greatest of the names that
/// start with a numeric character (as sorting them newest first and taking the first).
pub fn newest_build_tools(names: &Vec<String>) -> (r: Option<String>)
    ensures
        r is None <==> forall|i: int| 0 <= i < names@.len() ==> !starts_numeric(#[trigger] names@[i]@),
        r matches Some(x) ==> (exists|i: int| 0 <= i < names@.len() && #[trigger] names@[i]@ == x@)
            && starts_numeric(x@) && forall|j: int|
            0 <= j < names@.len() && starts_numeric(#[trigger] names@[j]@) ==> lex_le(names@[j]@, x@),
{
    let mut best: Option<String> = None;
    let mut i: usize = 0;
    while i < names.len()
        invariant
            i <= names@.len(),
            best is None <==> forall|k: int| 0 <= k < i ==> !starts_numeric(#[trigger] names@[k]@),
            best matches Some(x) ==> (exists|k: int| 0 <= k < i && #[trigger] names@[k]@ == x@)
                && starts_numeric(x@) && forall|j: int|
                0 <= j < i && starts_numeric(#[trigger] names@[j]@) ==> lex_le(names@[j]@, x@),
        decreases names.len() - i,
    {
        let n = &names[i];
        if starts_numeric_exec(n) {
            let replace = match &best {
                None => true,
                Some(b) => !string_le(n, b),
            };
            if replace {
                proof {
                    if let Some(b) = best {
                        lemma_lex_total(names@[i as int]@, b@);
                        assert forall|j: int|
                            0 <= j < i + 1 && starts_numeric(#[trigger] names@[j]@) implies lex_le(
                            names@[j]@,
                            names@[i as int]@,
                        ) by {
                            if j < i {
                                lemma_lex_trans(names@[j]@, b@, names@[i as int]@);
                            } else {
                                crate::order::lemma_lex_refl(names@[j]@);
                            }
                        }
                    } else {
                        assert forall|j: int|
                            0 <= j < i + 1 && starts_numeric(#[trigger] names@[j]@) implies lex_le(
                            names@[j]@,
                            names@[i as int]@,
                        ) by {
                            crate::order::lemma_lex_refl(names@[j]@);
                        }
                    }
                }
                best = Some(n.clone());
            }
        }
        i = i + 1;
    }
    best
}

/// `s` without one trailing carriage return.
fn strip_cr_exec(s: &Vec<char>) -> (r: Vec<char>)
    ensures
        r@ == strip_cr(s@),
{
    let n = s.len();
    if n > 0 && s[n - 1] == '\r' {
        subvec(s, 0, n - 1)
    } else {
        let r = subvec(s, 0, n);
        assert(r@ =~= s@);
        r
    }
}

/// The lines of `text`, as `str::lines` yields them.
pub fn text_lines(text: &str) -> (r: Vec<String>)
    ensures
        views(r@) == lines_of(text@),
{
    let nl = vec!['\n'];
    assert(nl@ =~= seq!['\n']);
    let mut rest = chars_of(text);
    let mut out: Vec<String> = Vec::new();
    let ghost all = split_char(text@, '\n');
    let ghost done: Seq<Seq<char>> = seq![];
    assert(all =~= done + split_char(rest@, '\n'));
    assert(views(out@) =~= done.map_values(|p: Seq<char>| strip_cr(p)));
    loop
        invariant
            nl@ == seq!['\n'],
            all == split_char(text@, '\n'),
            all == done + split_char(rest@, '\n'),
            views(out@) == done.map_values(|p: Seq<char>| strip_cr(p)),
        decreases rest@.len(),
    {
        match find_exec(&rest, &nl) {
            Some(i) => {
                proof {
                    lemma_find_from_range(rest@, seq!['\n'], 0);
                }
                let n = rest.len();
                let piece = subvec(&rest, 0, i);
                let next = subvec(&rest, i + 1, n);
                let line = strip_cr_exec(&piece);
                let ghost before = views(out@);
                out.push(string_of(&line));
                proof {
                    assert(split_char(rest@, '\n') == seq![piece@] + split_char(next@, '\n'));
                    assert(all =~= done.push(piece@) + split_char(next@, '\n'));
                    assert(views(out@) =~= before.push(strip_cr(piece@)));
                    assert(done.push(piece@).map_values(|p: Seq<char>| strip_cr(p)) =~= done.map_values(
                        |p: Seq<char>| strip_cr(p),
                    ).push(strip_cr(piece@)));
                    done = done.push(piece@);
                }
                rest = next;
            },
            None => {
                proof {
                    assert(split_char(rest@, '\n') == seq![rest@]);
                    assert(all =~= done.push(rest@));
                    assert(all.drop_last() =~= done);
                    assert(all.last() == rest@);
                }
                if rest.len() > 0 {
                    let ghost before = views(out@);
                    out.push(string_of(&rest));
                    assert(views(out@) =~= before.push(rest@));
                }
                return out;
            },
        }
    }
}

/// The device and state listed by one line.
fn device_of_line_exec(line: &String) -> (r: Option<(String, String)>)
    ensures
        match device_of_line(line@) {
            Some(d) => r matches Some(x) && x.0@ == d.0 && x.1@ == d.1,
            None => r is None,
        },
{
    let t = trim(line.as_str());
    let cs = chars_of(t.as_str());
    if cs.len() == 0 {
        return None;
    }
    let tab = vec!['\t'];
    assert(tab@ =~= seq!['\t']);
    match find_exec(&cs, &tab) {
        None => {
            assert(split_char(cs@, '\t') == seq![cs@]);
            None
        },
        Some(i) => {
            proof {
                lemma_find_from_range(cs@, seq!['\t'], 0);
            }
            let n = cs.len();
            let first = subvec(&cs, 0, i);
            let rest = subvec(&cs, i + 1, n);
            assert(split_char(cs@, '\t') == seq![first@] + split_char(rest@, '\t'));
            let second = before_tab(&rest);
            Some((string_of(&first), string_of(&second)))
        },
    }
}

/// The first tab-separated field of `s`.
fn before_tab(s: &Vec<char>) -> (r: Vec<char>)
    ensures
        r@ == split_char(s@, '\t')[0],
{
    let tab = vec!['\t'];
    assert(tab@ =~= seq!['\t']);
    match find_exec(s, &tab) {
        Some(i) => {
            proof {
                lemma_find_from_range(s@, seq!['\t'], 0);
            }
            subvec(s, 0, i)
        },
        None => {
            let n = s.len();
            let r = subvec(s, 0, n);
            assert(r@ =~= s@);
            r
        },
    }
}

/// The devices that the output of `adb devices` lists, each with its state.
pub fn parse_devices(output: &str) -> (r: Vec<(String, String)>)
    ensures
        r@.len() == devices_listed(output@).len(),
        forall|k: int|
            0 <= k < r@.len() ==> (#[trigger] r@[k]).0@ == devices_listed(output@)[k].0 && r@[k].1@
                == devices_listed(output@)[k].1,
{
    let lines = text_lines(output);
    let mut out: Vec<(String, String)> = Vec::new();
    if lines.len() == 0 {
        return out;
    }
    let ghost body = views(lines@).drop_first();
    let mut i: usize = 1;
    assert(body.take(0) =~= Seq::<Seq<char>>::empty());
    while i < lines.len()
        invariant
            1 <= i <= lines@.len(),
            body == views(lines@).drop_first(),
            views(lines@) == lines_of(output@),
            out@.len() == devices_of(body.take(i - 1)).len(),
            forall|k: int|
                0 <= k < out@.len() ==> (#[trigger] out@[k]).0@ == devices_of(body.take(i - 1))[k].0
                    && out@[k].1@ == devices_of(body.take(i - 1))[k].1,
        decreases lines.len() - i,
    {
        proof {
            assert(body.take(i as int).drop_last() =~= body.take(i - 1));
            assert(body.take(i as int).last() == lines@[i as int]@);
        }
        match device_of_line_exec(&lines[i]) {
            Some(d) => {
                out.push(d);
            },
            None => {},
        }
        i = i + 1;
    }
    assert(body.take(i - 1) =~= body);
    out
}

/// The kind of a state that `adb devices` reports.
pub fn device_status(status: &str) -> (r: DeviceStatus)
    ensures
        r == device_status_of(status@),
{
    if str_equal(status, "device") {
        DeviceStatus::Ready
    } else if str_equal(status, "offline") {
        DeviceStatus::Offline
    } else if str_equal(status, "unauthorized") {
        DeviceStatus::Unauthorized
    } else {
        DeviceStatus::Other
    }
}

/// The search path with the build tools' folders ahead of `existing`.
pub fn tool_search_path(existing: &str) -> (r: String)
    ensures
        r@ == tool_dirs() + ":"@ + existing@,
{
    let mut out = String::from_str(
        "/usr/lib/jvm/java-21-openjdk/bin:/opt/android-sdk/cmdline-tools/latest/bin:/opt/android-sdk/platform-tools:/opt/android-sdk/ndk/27.0.12077973",
    );
    out.append(":");
    out.append(existing);
    out
}

/// How an environment variable compares with the value the build expects.
#[derive(Debug, Clone, Copy, PartialEq, Eq, Structural)]
pub enum EnvCheck {
    /// Set to the expected value.
    Expected,
    /// Set to another value.
    Unexpected,
    /// Not set.
    Missing,
}

/// How the value of a variable (if it is set) compares with the expected one.
pub open spec fn env_check_of(value: Option<Seq<char>>, expected: Seq<char>) -> EnvCheck {
    match value {
        Some(v) => if v == expected {
            EnvCheck::Expected
        } else {
            EnvCheck::Unexpected
        },
        None => EnvCheck::Missing,
    }
}

/// How the value of a variable (if it is set) compares with the expected one.
pub fn env_check(value: Option<&str>, expected: &str) -> (r: EnvCheck)
    ensures
        r == env_check_of(
            match value {
                Some(v) => Some(v@),
                None => None,
            },
            expected@,
        ),
{
    match value {
        Some(v) => if str_equal(v, expected) {
            EnvCheck::Expected
        } else {
            EnvCheck::Unexpected
        },
        None => EnvCheck::Missing,
    }
}

/// The value a variable is given: the one already set, else the default.
pub open spec fn setting_or(value: Option<&str>, default: Seq<char>) -> Seq<char> {
    match value {
        Some(v) => v@,
        None => default,
    }
}

/// The variables set before a build, in order, each with its value: `JAVA_HOME`,
/// `ANDROID_HOME` and `ANDROID_NDK_HOME` keep a value the user set and otherwise get
/// their defaults; `PATH` gets the tool folders ahead of what it held.
pub fn build_environment(
    java_home: Option<&str>,
    android_home: Option<&str>,
    ndk_home: Option<&str>,
    path: Option<&str>,
) -> (r: Vec<(String, String)>)
    ensures
        r@.len() == 4,
        r@[0].0@ == "JAVA_HOME"@,
        r@[0].1@ == setting_or(java_home, "/usr/lib/jvm/java-21-openjdk"@),
        r@[1].0@ == "ANDROID_HOME"@,
        r@[1].1@ == setting_or(android_home, "/opt/android-sdk"@),
        r@[2].0@ == "ANDROID_NDK_HOME"@,
        r@[2].1@ == setting_or(ndk_home, "/opt/android-sdk/ndk/27.0.12077973"@),
        r@[3].0@ == "PATH"@,
        r@[3].1@ == tool_dirs() + ":"@ + setting_or(path, ""@),
{
    let java = match java_home {
        Some(v) => String::from_str(v),
        None => String::from_str("/usr/lib/jvm/java-21-openjdk"),
    };
    let sdk = match android_home {
        Some(v) => String::from_str(v),
        None => String::from_str("/opt/android-sdk"),
    };
    let ndk = match ndk_home {
        Some(v) => String::from_str(v),
        None => String::from_str("/opt/android-sdk/ndk/27.0.12077973"),
    };
    let search = match path {
        Some(v) => tool_search_path(v),
        None => tool_search_path(""),
    };
    let mut r: Vec<(String, String)> = Vec::new();
    r.push((String::from_str("JAVA_HOME"), java));
    r.push((String::from_str("ANDROID_HOME"), sdk));
    r.push((String::from_str("ANDROID_NDK_HOME"), ndk));
    r.push((String::from_str("PATH"), search));
    r
}

/// `a` followed by `b`.
fn joined(a: &str, b: &str) -> (r: String)
    ensures
        r@ == a@ + b@,
{
    let mut r = String::from_str(a);
    r.append(b);
    r
}

/// The debug keystore under the home folder `home`, or the fixed fallback when the home
/// folder is unknown.
pub fn debug_keystore_path(home: Option<&str>) -> (r: String)
    ensures
        r@ == match home {
            Some(h) => h@ + "/.android/debug.keystore"@,
            None => "/home/meme/.android/debug.keystore"@,
        },
{
    match home {
        Some(h) => joined(h, "/.android/debug.keystore"),
        None => String::from_str("/home/meme/.android/debug.keystore"),
    }
}

/// The `zipalign` and `apksigner` of build-tools release `version` under the SDK at
/// `android_home`.
pub fn build_tool_paths(android_home: &str, version: &str) -> (r: (String, String))
    ensures
        r.0@ == android_home@ + "/build-tools/"@ + version@ + "/zipalign"@,
        r.1@ == android_home@ + "/build-tools/"@ + version@ + "/apksigner"@,
{
    let dir = joined(joined(android_home, "/build-tools/").as_str(), version);
    (joined(dir.as_str(), "/zipalign"), joined(dir.as_str(), "/apksigner"))
}

/// The arguments of `zipalign` that align `apk_path` into `aligned_path`.
pub fn zipalign_args(apk_path: &str, aligned_path: &str) -> (r: Vec<String>)
    ensures
        views(r@) == seq!["-f"@, "4"@, apk_path@, aligned_path@],
{
    let mut v: Vec<String> = Vec::new();
    assert(views(v@) =~= Seq::<Seq<char>>::empty());
    push_text(&mut v, "-f");
    push_text(&mut v, "4");
    push_text(&mut v, apk_path);
    push_text(&mut v, aligned_path);
    assert(views(v@) =~= seq!["-f"@, "4"@, apk_path@, aligned_path@]);
    v
}

/// The arguments of `apksigner` that sign `aligned_path` into `signed_path` with the
/// debug key of `keystore`.
pub fn apksigner_sign_args(keystore: &str, signed_path: &str, aligned_path: &str) -> (r: Vec<
    String,
>)
    ensures
        views(r@) == seq![
            "sign"@,
            "--ks"@,
            keystore@,
            "--ks-pass"@,
            "pass:android"@,
            "--key-pass"@,
            "pass:android"@,
            "--out"@,
            signed_path@,
            aligned_path@,
        ],
{
    let mut v: Vec<String> = Vec::new();
    assert(views(v@) =~= Seq::<Seq<char>>::empty());
    push_text(&mut v, "sign");
    push_text(&mut v, "--ks");
    push_text(&mut v, keystore);
    push_text(&mut v, "--ks-pass");
    push_text(&mut v, "pass:android");
    push_text(&mut v, "--key-pass");
    push_text(&mut v, "pass:android");
    push_text(&mut v, "--out");
    push_text(&mut v, signed_path);
    push_text(&mut v, aligned_path);
    assert(views(v@) =~= seq![
        "sign"@,
        "--ks"@,
        keystore@,
        "--ks-pass"@,
        "pass:android"@,
        "--key-pass"@,
        "pass:android"@,
        "--out"@,
        signed_path@,
        aligned_path@,
    ]);
    v
}

/// The arguments of `apksigner` that check the signature of `signed_path`.
pub fn apksigner_verify_args(signed_path: &str) -> (r: Vec<String>)
    ensures
        views(r@) == seq!["verify"@, signed_path@],
{
    let mut v: Vec<String> = Vec::new();
    assert(views(v@) =~= Seq::<Seq<char>>::empty());
    push_text(&mut v, "verify");
    push_text(&mut v, signed_path);
    assert(views(v@) =~= seq!["verify"@, signed_path@]);
    v
}

/// The arguments of `jarsigner` that sign `aligned_path` in place with the debug key of
/// `keystore`.
pub fn jarsigner_args(keystore: &str, aligned_path: &str) -> (r: Vec<String>)
    ensures
        views(r@) == seq![
            "-keystore"@,
            keystore@,
            "-storepass"@,
            "android"@,
            aligned_path@,
            "androiddebugkey"@,
        ],
{
    let mut v: Vec<String> = Vec::new();
    assert(views(v@) =~= Seq::<Seq<char>>::empty());
    push_text(&mut v, "-keystore");
    push_text(&mut v, keystore);
    push_text(&mut v, "-storepass");
    push_text(&mut v, "android");
    push_text(&mut v, aligned_path);
    push_text(&mut v, "androiddebugkey");
    assert(views(v@) =~= seq![
        "-keystore"@,
        keystore@,
        "-storepass"@,
        "android"@,
        aligned_path@,
        "androiddebugkey"@,
    ]);
    v
}

} // verus!
