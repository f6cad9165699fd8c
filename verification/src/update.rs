//! Choosing, checking and installing a release package for self-update.
use crate::firewall::{argv, command_is, CommandSpec};
use crate::text::{ascii_case_eq, digit_char, digit_of, lower_byte, push_char};
use sha2::Digest;
use crate::text::{
    chars_of, contains_chars, contains_text, ends_with_chars, ends_with_text, same_text,
};
use vstd::prelude::*;

verus! {

/// One downloadable file of a release.
#[derive(Clone, Debug, PartialEq, Eq)]
pub struct ReleaseAsset {
    pub name: String,
    pub browser_download_url: String,
    pub digest: Option<String>,
}

/// A published release and its files.
#[derive(Clone, Debug, PartialEq, Eq)]
pub struct GitHubRelease {
    pub tag_name: String,
    pub assets: Vec<ReleaseAsset>,
}

/// Why an update step was refused.
#[derive(Clone, Copy, Debug, PartialEq, Eq, Structural)]
pub enum UpdateError {
    UnsupportedDistribution,
    UnsupportedArchitecture,
    UnsupportedArchMapping,
    NoMatchingAsset,
    UnsupportedExtension,
    MissingDigest,
    DigestNotSha256,
    InvalidDigest,
    DigestMismatch,
}

/// The human-readable reason for a `UpdateError`.
pub open spec fn update_error_text(e: UpdateError) -> Seq<char> {
    match e {
        UpdateError::UnsupportedDistribution => "unsupported Linux distribution for automatic package selection"@,
        UpdateError::UnsupportedArchitecture => "unsupported CPU architecture for automatic package selection"@,
        UpdateError::UnsupportedArchMapping => "unsupported package architecture mapping"@,
        UpdateError::NoMatchingAsset => "release does not contain a package for this system"@,
        UpdateError::UnsupportedExtension => "unsupported package extension"@,
        UpdateError::MissingDigest => "release asset does not contain a digest"@,
        UpdateError::DigestNotSha256 => "release asset digest is not sha256"@,
        UpdateError::InvalidDigest => "release asset has an invalid sha256 digest"@,
        UpdateError::DigestMismatch => "downloaded package digest mismatch"@,
    }
}

impl UpdateError {
    /// The human-readable reason.
    pub fn message(&self) -> (r: &'static str)
        ensures
            r@ == update_error_text(*self),
    {
        match self {
            UpdateError::UnsupportedDistribution => "unsupported Linux distribution for automatic package selection",
            UpdateError::UnsupportedArchitecture => "unsupported CPU architecture for automatic package selection",
            UpdateError::UnsupportedArchMapping => "unsupported package architecture mapping",
            UpdateError::NoMatchingAsset => "release does not contain a package for this system",
            UpdateError::UnsupportedExtension => "unsupported package extension",
            UpdateError::MissingDigest => "release asset does not contain a digest",
            UpdateError::DigestNotSha256 => "release asset digest is not sha256",
            UpdateError::InvalidDigest => "release asset has an invalid sha256 digest",
            UpdateError::DigestMismatch => "downloaded package digest mismatch",
        }
    }
}

/// The architecture names a package of `extension` for `arch` is published under.
pub open spec fn arch_names_spec(extension: Seq<char>, arch: Seq<char>) -> Option<Seq<Seq<char>>> {
    if extension == "deb"@ && arch == "amd64"@ {
        Some(seq!["amd64"@])
    } else if extension == "deb"@ && arch == "arm64"@ {
        Some(seq!["arm64"@])
    } else if extension == "rpm"@ && arch == "amd64"@ {
        Some(seq!["x86_64"@])
    } else if extension == "rpm"@ && arch == "arm64"@ {
        Some(seq!["aarch64"@, "arm64"@])
    } else {
        None
    }
}

/// The architecture names a package of `extension` for `arch` is published under.
pub fn package_arch_names(extension: &str, arch: &str) -> (r: Result<Vec<&'static str>, UpdateError>)
    ensures
        match arch_names_spec(extension@, arch@) {
            Some(names) => r matches Ok(v) && v@.map_values(|s: &str| s@) == names,
            None => r == Err::<Vec<&'static str>, UpdateError>(UpdateError::UnsupportedArchMapping),
        },
{
    let deb = same_text(extension, "deb");
    let rpm = same_text(extension, "rpm");
    let amd64 = same_text(arch, "amd64");
    let arm64 = same_text(arch, "arm64");
    let mut v: Vec<&'static str> = Vec::new();
    if deb && amd64 {
        v.push("amd64");
    } else if deb && arm64 {
        v.push("arm64");
    } else if rpm && amd64 {
        v.push("x86_64");
    } else if rpm && arm64 {
        v.push("aarch64");
        v.push("arm64");
    } else {
        return Err(UpdateError::UnsupportedArchMapping);
    }
    assert(v@.map_values(|s: &str| s@) =~= arch_names_spec(extension@, arch@)->Some_0);
    Ok(v)
}

/// Whether an asset name fits: it ends with `.` and the extension and holds
/// one of the architecture names.
pub open spec fn asset_fits(name: Seq<char>, extension: Seq<char>, arch_names: Seq<Seq<char>>) -> bool {
    &&& ends_with_text(name, seq!['.'] + extension)
    &&& exists|k: int| 0 <= k < arch_names.len() && contains_text(name, #[trigger] arch_names[k])
}

fn any_name_in(name: &Vec<char>, names: &Vec<Vec<char>>) -> (r: bool)
    ensures
        r == exists|k: int| 0 <= k < names@.len() && contains_text(name@, #[trigger] names@[k]@),
{
    let mut k: usize = 0;
    while k < names.len()
        invariant
            k <= names@.len(),
            forall|j: int| 0 <= j < k ==> !contains_text(name@, #[trigger] names@[j]@),
        decreases names@.len() - k,
    {
        if contains_chars(name, &names[k]) {
            return true;
        }
        k = k + 1;
    }
    false
}

/// The release asset to install: the first whose name ends with `.` and the
/// extension and holds one of the architecture's package names.
pub fn select_release_asset<'a>(release: &'a GitHubRelease, extension: &str, arch: &str) -> (r: Result<
    &'a ReleaseAsset,
    UpdateError,
>)
    ensures
        match arch_names_spec(extension@, arch@) {
            None => r == Err::<&ReleaseAsset, UpdateError>(UpdateError::UnsupportedArchMapping),
            Some(names) => match r {
                Ok(a) => exists|i: int|
                    {
                        &&& 0 <= i < release.assets@.len()
                        &&& *a == release.assets@[i]
                        &&& asset_fits(release.assets@[i].name@, extension@, names)
                        &&& forall|j: int|
                            0 <= j < i ==> !asset_fits(
                                #[trigger] release.assets@[j].name@,
                                extension@,
                                names,
                            )
                    },
                Err(e) => e == UpdateError::NoMatchingAsset && forall|i: int|
                    0 <= i < release.assets@.len() ==> !asset_fits(
                        #[trigger] release.assets@[i].name@,
                        extension@,
                        names,
                    ),
            },
        },
{
    let names = match package_arch_names(extension, arch) {
        Ok(v) => v,
        Err(e) => return Err(e),
    };
    let ghost spec_names = names@.map_values(|s: &str| s@);
    let mut name_chars: Vec<Vec<char>> = Vec::new();
    let mut k: usize = 0;
    while k < names.len()
        invariant
            k <= names@.len(),
            spec_names == names@.map_values(|s: &str| s@),
            name_chars@.len() == k,
            forall|j: int| 0 <= j < k ==> #[trigger] name_chars@[j]@ == spec_names[j],
        decreases names@.len() - k,
    {
        name_chars.push(chars_of(names[k]));
        k = k + 1;
    }
    let mut dotted: Vec<char> = Vec::new();
    dotted.push('.');
    let ext = chars_of(extension);
    let mut e: usize = 0;
    while e < ext.len()
        invariant
            e <= ext@.len(),
            dotted@ == seq!['.'] + ext@.take(e as int),
        decreases ext@.len() - e,
    {
        dotted.push(ext[e]);
        e = e + 1;
        assert(dotted@ =~= seq!['.'] + ext@.take(e as int));
    }
    assert(ext@.take(ext@.len() as int) =~= ext@);
    let assets = &release.assets;
    let mut i: usize = 0;
    while i < assets.len()
        invariant
            i <= assets@.len(),
            assets@ == release.assets@,
            dotted@ == seq!['.'] + extension@,
            arch_names_spec(extension@, arch@) == Some(spec_names),
            name_chars@.len() == spec_names.len(),
            forall|j: int| 0 <= j < name_chars@.len() ==> #[trigger] name_chars@[j]@ == spec_names[j],
            forall|j: int|
                0 <= j < i ==> !asset_fits(#[trigger] assets@[j].name@, extension@, spec_names),
        decreases assets@.len() - i,
    {
        let name = chars_of(assets[i].name.as_str());
        let fits = ends_with_chars(&name, &dotted) && any_name_in(&name, &name_chars);
        proof {
            if exists|k: int|
                0 <= k < name_chars@.len() && contains_text(name@, #[trigger] name_chars@[k]@) {
                let k = choose|k: int|
                    0 <= k < name_chars@.len() && contains_text(name@, #[trigger] name_chars@[k]@);
                assert(contains_text(name@, spec_names[k]));
            }
            if exists|k: int| 0 <= k < spec_names.len() && contains_text(name@, #[trigger] spec_names[k]) {
                let k = choose|k: int|
                    0 <= k < spec_names.len() && contains_text(name@, #[trigger] spec_names[k]);
                assert(contains_text(name@, name_chars@[k]@));
            }
            assert(fits == asset_fits(assets@[i as int].name@, extension@, spec_names));
        }
        if fits {
            return Ok(&assets[i]);
        }
        i = i + 1;
    }
    Err(UpdateError::NoMatchingAsset)
}

/// The os-release markers of RPM-based distributions.
pub open spec fn rpm_markers() -> Seq<Seq<char>> {
    seq![
        "ID_LIKE=rhel"@,
        "ID_LIKE=\"rhel"@,
        "ID=centos"@,
        "ID=fedora"@,
        "ID=rhel"@,
        "ID=rocky"@,
        "ID=almalinux"@,
    ]
}

/// The os-release markers of Debian-based distributions.
pub open spec fn deb_markers() -> Seq<Seq<char>> {
    seq!["ID_LIKE=debian"@, "ID_LIKE=\"debian"@, "ID=debian"@, "ID=ubuntu"@]
}

/// Whether `text` holds one of `markers`.
pub open spec fn holds_any(text: Seq<char>, markers: Seq<Seq<char>>) -> bool {
    exists|k: int| 0 <= k < markers.len() && contains_text(text, #[trigger] markers[k])
}

fn holds_any_exec(text: &Vec<char>, markers: &Vec<&'static str>) -> (r: bool)
    ensures
        r == holds_any(text@, markers@.map_values(|s: &str| s@)),
{
    let ghost ms = markers@.map_values(|s: &str| s@);
    let mut k: usize = 0;
    while k < markers.len()
        invariant
            k <= markers@.len(),
            ms == markers@.map_values(|s: &str| s@),
            forall|j: int| 0 <= j < k ==> !contains_text(text@, #[trigger] ms[j]),
        decreases markers@.len() - k,
    {
        let m = chars_of(markers[k]);
        if contains_chars(text, &m) {
            assert(contains_text(text@, ms[k as int]));
            return true;
        }
        k = k + 1;
    }
    false
}

/// The package format for a distribution, from the text of its os-release
/// file: `rpm` for RPM-based systems, else `deb` for Debian-based ones.
pub fn detect_package_extension(os_release: &str) -> (r: Result<&'static str, UpdateError>)
    ensures
        if holds_any(os_release@, rpm_markers()) {
            r matches Ok(e) && e@ == "rpm"@
        } else if holds_any(os_release@, deb_markers()) {
            r matches Ok(e) && e@ == "deb"@
        } else {
            r == Err::<&'static str, UpdateError>(UpdateError::UnsupportedDistribution)
        },
{
    let text = chars_of(os_release);
    let mut rpm: Vec<&'static str> = Vec::new();
    rpm.push("ID_LIKE=rhel");
    rpm.push("ID_LIKE=\"rhel");
    rpm.push("ID=centos");
    rpm.push("ID=fedora");
    rpm.push("ID=rhel");
    rpm.push("ID=rocky");
    rpm.push("ID=almalinux");
    assert(rpm@.map_values(|s: &str| s@) =~= rpm_markers());
    if holds_any_exec(&text, &rpm) {
        return Ok("rpm");
    }
    let mut deb: Vec<&'static str> = Vec::new();
    deb.push("ID_LIKE=debian");
    deb.push("ID_LIKE=\"debian");
    deb.push("ID=debian");
    deb.push("ID=ubuntu");
    assert(deb@.map_values(|s: &str| s@) =~= deb_markers());
    if holds_any_exec(&text, &deb) {
        return Ok("deb");
    }
    Err(UpdateError::UnsupportedDistribution)
}

/// The package architecture name of a CPU architecture.
pub fn detect_architecture(arch: &str) -> (r: Result<&'static str, UpdateError>)
    ensures
        if arch@ == "x86_64"@ {
            r matches Ok(a) && a@ == "amd64"@
        } else if arch@ == "aarch64"@ {
            r matches Ok(a) && a@ == "arm64"@
        } else {
            r == Err::<&'static str, UpdateError>(UpdateError::UnsupportedArchitecture)
        },
{
    if same_text(arch, "x86_64") {
        Ok("amd64")
    } else if same_text(arch, "aarch64") {
        Ok("arm64")
    } else {
        Err(UpdateError::UnsupportedArchitecture)
    }
}

/// `s` without its leading `v` characters.
pub open spec fn strip_leading_v(s: Seq<char>) -> Seq<char>
    decreases s.len(),
{
    if s.len() > 0 && s[0] == 'v' {
        strip_leading_v(s.drop_first())
    } else {
        s
    }
}

/// Whether the release tagged `tag` is the running version `current`
/// (leading `v`s of the tag ignored).
pub fn is_current_release(tag: &str, current: &str) -> (r: bool)
    ensures
        r == (strip_leading_v(tag@) == current@),
{
    let t = chars_of(tag);
    let c = chars_of(current);
    let mut start: usize = 0;
    assert(t@.skip(0) =~= t@);
    while start < t.len() && t[start] == 'v'
        invariant
            start <= t@.len(),
            strip_leading_v(t@) == strip_leading_v(t@.skip(start as int)),
        decreases t@.len() - start,
    {
        assert(t@.skip(start as int).drop_first() =~= t@.skip(start + 1));
        start = start + 1;
    }
    assert(strip_leading_v(t@.skip(start as int)) == t@.skip(start as int));
    if t.len() - start != c.len() {
        return false;
    }
    let n = t.len();
    let mut i: usize = 0;
    while i < c.len()
        invariant
            n == t@.len(),
            t@ == tag@,
            c@ == current@,
            strip_leading_v(t@) == t@.skip(start as int),
            start + c@.len() == t@.len(),
            i <= c@.len(),
            forall|k: int| 0 <= k < i ==> t@[start + k] == c@[k],
        decreases c@.len() - i,
    {
        if t[start + i] != c[i] {
            assert(t@.skip(start as int)[i as int] != c@[i as int]);
            return false;
        }
        i = i + 1;
    }
    assert(t@.skip(start as int) =~= c@);
    true
}

/// The command that installs a downloaded package: `dpkg -i` for `deb`,
/// `rpm -Uvh` for `rpm`.
pub fn install_command(extension: &str, package_path: &str) -> (r: Result<CommandSpec, UpdateError>)
    ensures
        if extension@ == "deb"@ {
            r matches Ok(c) && command_is(c, "dpkg"@, seq!["-i"@, package_path@])
        } else if extension@ == "rpm"@ {
            r matches Ok(c) && command_is(c, "rpm"@, seq!["-Uvh"@, package_path@])
        } else {
            r == Err::<CommandSpec, UpdateError>(UpdateError::UnsupportedExtension)
        },
{
    let (program, flag) = if same_text(extension, "deb") {
        ("dpkg", "-i")
    } else if same_text(extension, "rpm") {
        ("rpm", "-Uvh")
    } else {
        return Err(UpdateError::UnsupportedExtension);
    };
    let mut args: Vec<String> = Vec::new();
    args.push(String::from_str(flag));
    args.push(String::from_str(package_path));
    let c = CommandSpec { program: String::from_str(program), args };
    assert(argv(c) =~= seq![flag@, package_path@]);
    Ok(c)
}

/// The SHA-256 digest of `data` (`sha2::Sha256::digest`).
pub uninterp spec fn sha256_of(data: Seq<u8>) -> Seq<u8>;

/// Computes the SHA-256 digest of `data` with `sha2::Sha256::digest`; the
/// digest is 32 bytes.
#[verifier::external_body]
fn sha256(data: &[u8]) -> (r: Vec<u8>)
    ensures
        r@ == sha256_of(data@),
        r@.len() == 32,
{
    sha2::Sha256::digest(data).to_vec()
}

/// The ASCII code of a lowercase hex digit below sixteen.
pub open spec fn hex_code(n: int) -> u8 {
    if n < 10 {
        (48 + n) as u8
    } else {
        (87 + n) as u8
    }
}

/// Lowercase hex encoding of bytes, two ASCII digits per byte (`{:x}`).
pub open spec fn lower_hex(d: Seq<u8>) -> Seq<u8>
    decreases d.len(),
{
    if d.len() == 0 {
        Seq::empty()
    } else {
        lower_hex(d.drop_last()) + seq![hex_code((d.last() / 16) as int), hex_code((d.last() % 16) as int)]
    }
}

/// Whether a byte is an ASCII hex digit.
pub open spec fn hex_digit_byte(b: u8) -> bool {
    (48 <= b <= 57) || (65 <= b <= 70) || (97 <= b <= 102)
}

/// The bytes of `sha256:`.
pub open spec fn sha256_prefix() -> Seq<u8> {
    seq![115u8, 104u8, 97u8, 50u8, 53u8, 54u8, 58u8]
}

/// The verdict on a published digest (its UTF-8 bytes, if any) against the
/// digest actually computed for the package.
pub open spec fn digest_verdict(published: Option<Seq<u8>>, actual: Seq<u8>) -> Result<(), UpdateError> {
    match published {
        None => Err(UpdateError::MissingDigest),
        Some(d) => if d.len() < 7 || d.take(7) != sha256_prefix() {
            Err(UpdateError::DigestNotSha256)
        } else {
            let h = d.skip(7);
            if h.len() != 64 || exists|i: int| 0 <= i < h.len() && !hex_digit_byte(#[trigger] h[i]) {
                Err(UpdateError::InvalidDigest)
            } else if !ascii_case_eq(lower_hex(actual), h) {
                Err(UpdateError::DigestMismatch)
            } else {
                Ok(())
            }
        },
    }
}

fn hex_code_exec(n: u8) -> (r: u8)
    requires
        n < 16,
    ensures
        r == hex_code(n as int),
{
    if n < 10 {
        48 + n
    } else {
        87 + n
    }
}

fn lower_hex_exec(d: &[u8]) -> (r: Vec<u8>)
    ensures
        r@ == lower_hex(d@),
{
    let mut r: Vec<u8> = Vec::new();
    let mut i: usize = 0;
    while i < d.len()
        invariant
            i <= d@.len(),
            r@ == lower_hex(d@.take(i as int)),
        decreases d@.len() - i,
    {
        let b = d[i];
        r.push(hex_code_exec(b / 16));
        r.push(hex_code_exec(b % 16));
        proof {
            let t = d@.take(i + 1);
            assert(t.drop_last() =~= d@.take(i as int));
            assert(t.last() == b);
        }
        i = i + 1;
        assert(r@ =~= lower_hex(d@.take(i as int)));
    }
    assert(d@.take(d@.len() as int) =~= d@);
    r
}

/// Checks a published digest against the digest computed for a package: it
/// must be present, start with `sha256:`, hold 64 hex digits, and equal the
/// lowercase hex of the computed digest up to ASCII case.
pub fn check_digest(published: Option<&str>, actual: &[u8]) -> (r: Result<(), UpdateError>)
    ensures
        r == digest_verdict(
            match published {
                Some(p) => Some(vstd::utf8::encode_utf8(p@)),
                None => None,
            },
            actual@,
        ),
{
    let text = match published {
        None => return Err(UpdateError::MissingDigest),
        Some(p) => p,
    };
    let d = text.as_bytes();
    if d.len() < 7 || d[0] != 115 || d[1] != 104 || d[2] != 97 || d[3] != 50 || d[4] != 53 || d[5]
        != 54 || d[6] != 58 {
        proof {
            if d@.len() >= 7 && d@.take(7) == sha256_prefix() {
                assert(d@.take(7)[0] == d@[0]);
                assert(d@.take(7)[1] == d@[1]);
                assert(d@.take(7)[2] == d@[2]);
                assert(d@.take(7)[3] == d@[3]);
                assert(d@.take(7)[4] == d@[4]);
                assert(d@.take(7)[5] == d@[5]);
                assert(d@.take(7)[6] == d@[6]);
            }
        }
        return Err(UpdateError::DigestNotSha256);
    }
    assert(d@.take(7) =~= sha256_prefix());
    let n = d.len();
    if n - 7 != 64 {
        return Err(UpdateError::InvalidDigest);
    }
    let ghost h = d@.skip(7);
    let mut i: usize = 7;
    while i < n
        invariant
            n == d@.len(),
            n == 71,
            published == Some(text),
            d@ == vstd::utf8::encode_utf8(text@),
            d@.take(7) == sha256_prefix(),
            h == d@.skip(7),
            7 <= i <= n,
            forall|j: int| 0 <= j < i - 7 ==> hex_digit_byte(#[trigger] h[j]),
        decreases n - i,
    {
        let b = d[i];
        if !((48 <= b && b <= 57) || (65 <= b && b <= 70) || (97 <= b && b <= 102)) {
            assert(h[i - 7] == b);
            assert(!hex_digit_byte(h[i - 7]));
            return Err(UpdateError::InvalidDigest);
        }
        i = i + 1;
    }
    let expected = lower_hex_exec(actual);
    if expected.len() != 64 {
        return Err(UpdateError::DigestMismatch);
    }
    let mut k: usize = 0;
    while k < 64
        invariant
            expected@ == lower_hex(actual@),
            expected@.len() == 64,
            n == d@.len(),
            n == 71,
            published == Some(text),
            d@ == vstd::utf8::encode_utf8(text@),
            d@.take(7) == sha256_prefix(),
            forall|j: int| 0 <= j < h.len() ==> hex_digit_byte(#[trigger] h[j]),
            h == d@.skip(7),
            h.len() == 64,
            k <= 64,
            forall|j: int| 0 <= j < k ==> crate::text::ascii_lower(#[trigger] expected@[j])
                == crate::text::ascii_lower(h[j]),
        decreases 64 - k,
    {
        if lower_byte(expected[k]) != lower_byte(d[k + 7]) {
            assert(h[k as int] == d@[k + 7]);
            assert(crate::text::ascii_lower(expected@[k as int]) != crate::text::ascii_lower(h[k as int]));
            return Err(UpdateError::DigestMismatch);
        }
        k = k + 1;
    }
    Ok(())
}

/// Checks a downloaded package against its asset's published SHA-256 digest.
pub fn verify_package_digest(asset: &ReleaseAsset, package: &[u8]) -> (r: Result<(), UpdateError>)
    ensures
        r == digest_verdict(
            match asset.digest {
                Some(p) => Some(vstd::utf8::encode_utf8(p@)),
                None => None,
            },
            sha256_of(package@),
        ),
{
    let published = match &asset.digest {
        Some(d) => Some(d.as_str()),
        None => None,
    };
    let actual = sha256(package);
    check_digest(published, actual.as_slice())
}

/// Lowercase hex text of bytes, two digits per byte (`{:x}` of a digest).
pub open spec fn hex_text_of(d: Seq<u8>) -> Seq<char>
    decreases d.len(),
{
    if d.len() == 0 {
        Seq::empty()
    } else {
        hex_text_of(d.drop_last()) + seq![
            digit_char((d.last() / 16) as nat),
            digit_char((d.last() % 16) as nat),
        ]
    }
}

fn push_hex_bytes(s: &mut String, d: &[u8])
    ensures
        final(s)@ == old(s)@ + hex_text_of(d@),
{
    let mut i: usize = 0;
    while i < d.len()
        invariant
            i <= d@.len(),
            s@ == old(s)@ + hex_text_of(d@.take(i as int)),
        decreases d@.len() - i,
    {
        let b = d[i];
        push_char(s, digit_of((b / 16) as u64));
        push_char(s, digit_of((b % 16) as u64));
        proof {
            let t = d@.take(i + 1);
            assert(t.drop_last() =~= d@.take(i as int));
            assert(t.last() == b);
        }
        i = i + 1;
        assert(s@ =~= old(s)@ + hex_text_of(d@.take(i as int)));
    }
    assert(d@.take(d@.len() as int) =~= d@);
}

/// Names joined with `, `.
pub open spec fn join_names(names: Seq<Seq<char>>) -> Seq<char>
    decreases names.len(),
{
    if names.len() == 0 {
        Seq::empty()
    } else if names.len() == 1 {
        names[0]
    } else {
        join_names(names.drop_last()) + ", "@ + names.last()
    }
}

/// The full text of a refusal to select a release asset for `extension` and
/// `arch`: for a release with no fitting asset, the extension and every
/// architecture name looked for.
pub open spec fn selection_failure_text(e: UpdateError, extension: Seq<char>, arch: Seq<char>) -> Seq<char> {
    match (e, arch_names_spec(extension, arch)) {
        (UpdateError::NoMatchingAsset, Some(names)) => "release does not contain a ."@ + extension
            + " package for any of: "@ + join_names(names),
        _ => update_error_text(e),
    }
}

/// The full text of a refusal from `select_release_asset`, with the details
/// that it was given.
pub fn selection_failure_message(e: UpdateError, extension: &str, arch: &str) -> (r: String)
    ensures
        r@ == selection_failure_text(e, extension@, arch@),
{
    if e != UpdateError::NoMatchingAsset {
        return String::from_str(e.message());
    }
    let names = match package_arch_names(extension, arch) {
        Ok(v) => v,
        Err(_) => return String::from_str(e.message()),
    };
    let ghost spec_names = names@.map_values(|n: &str| n@);
    let mut r = String::from_str("release does not contain a .");
    r.append(extension);
    r.append(" package for any of: ");
    let ghost prefix = r@;
    let mut i: usize = 0;
    while i < names.len()
        invariant
            i <= names@.len(),
            spec_names == names@.map_values(|n: &str| n@),
            r@ == prefix + join_names(spec_names.take(i as int)),
        decreases names@.len() - i,
    {
        if i > 0 {
            r.append(", ");
        }
        r.append(names[i]);
        proof {
            let t = spec_names.take(i + 1);
            assert(t.drop_last() =~= spec_names.take(i as int));
            assert(t.last() == names@[i as int]@);
            if i == 0 {
                assert(spec_names.take(0) =~= Seq::<Seq<char>>::empty());
            }
        }
        i = i + 1;
        assert(r@ =~= prefix + join_names(spec_names.take(i as int)));
    }
    assert(spec_names.take(names@.len() as int) =~= spec_names);
    r
}

/// The published hash shown in a mismatch report: the digest text after its
/// `sha256:` prefix.
pub open spec fn published_hash_text(published: Option<Seq<char>>) -> Seq<char> {
    match published {
        Some(p) => if p.len() >= 7 {
            p.skip(7)
        } else {
            p
        },
        None => Seq::empty(),
    }
}

/// The full text of a refusal from `verify_package_digest` for the asset
/// `name` with published digest `published`, when the package's digest is
/// `actual`: the asset's name, and for a mismatch both hashes.
pub open spec fn digest_failure_text(
    e: UpdateError,
    name: Seq<char>,
    published: Option<Seq<char>>,
    actual: Seq<u8>,
) -> Seq<char> {
    match e {
        UpdateError::MissingDigest => "release asset "@ + name + " does not contain a digest"@,
        UpdateError::DigestNotSha256 => "release asset "@ + name + " digest is not sha256"@,
        UpdateError::InvalidDigest => "release asset "@ + name + " has an invalid sha256 digest"@,
        UpdateError::DigestMismatch => "downloaded package digest mismatch for "@ + name
            + ": expected sha256:"@ + published_hash_text(published) + ", got sha256:"@
            + hex_text_of(actual),
        _ => update_error_text(e),
    }
}

/// The full text of a refusal from `verify_package_digest` on `asset` and
/// `package`, with the details that it was given.
pub fn digest_failure_message(e: UpdateError, asset: &ReleaseAsset, package: &[u8]) -> (r: String)
    ensures
        r@ == digest_failure_text(
            e,
            asset.name@,
            match asset.digest {
                Some(p) => Some(p@),
                None => None,
            },
            sha256_of(package@),
        ),
{
    let mut r = String::new();
    match e {
        UpdateError::MissingDigest => {
            r.append("release asset ");
            r.append(asset.name.as_str());
            r.append(" does not contain a digest");
        },
        UpdateError::DigestNotSha256 => {
            r.append("release asset ");
            r.append(asset.name.as_str());
            r.append(" digest is not sha256");
        },
        UpdateError::InvalidDigest => {
            r.append("release asset ");
            r.append(asset.name.as_str());
            r.append(" has an invalid sha256 digest");
        },
        UpdateError::DigestMismatch => {
            r.append("downloaded package digest mismatch for ");
            r.append(asset.name.as_str());
            r.append(": expected sha256:");
            let ghost before = r@;
            match &asset.digest {
                Some(p) => {
                    let cs = chars_of(p.as_str());
                    let start: usize = if cs.len() >= 7 {
                        7
                    } else {
                        0
                    };
                    let mut i: usize = start;
                    while i < cs.len()
                        invariant
                            start <= i <= cs@.len(),
                            r@ == before + cs@.subrange(start as int, i as int),
                        decreases cs@.len() - i,
                    {
                        push_char(&mut r, cs[i]);
                        i = i + 1;
                        assert(r@ =~= before + cs@.subrange(start as int, i as int));
                    }
                    assert(cs@.subrange(start as int, cs@.len() as int) =~= published_hash_text(Some(p@)));
                },
                None => {
                    assert(r@ =~= before + published_hash_text(None));
                },
            }
            r.append(", got sha256:");
            let actual = sha256(package);
            push_hex_bytes(&mut r, actual.as_slice());
        },
        _ => {
            r.append(e.message());
        },
    }
    r
}

/// Whether an os-release text names an RPM-based distribution.
pub open spec fn names_rpm_distribution(t: Seq<char>) -> bool {
    ||| contains_text(t, "ID_LIKE=rhel"@)
    ||| contains_text(t, "ID_LIKE=\"rhel"@)
    ||| contains_text(t, "ID=centos"@)
    ||| contains_text(t, "ID=fedora"@)
    ||| contains_text(t, "ID=rhel"@)
    ||| contains_text(t, "ID=rocky"@)
    ||| contains_text(t, "ID=almalinux"@)
}

/// Whether an os-release text names Debian, Ubuntu, or a distribution like
/// Debian.
pub open spec fn names_debian_distribution(t: Seq<char>) -> bool {
    ||| contains_text(t, "ID_LIKE=debian"@)
    ||| contains_text(t, "ID_LIKE=\"debian"@)
    ||| contains_text(t, "ID=debian"@)
    ||| contains_text(t, "ID=ubuntu"@)
}

/// Which package format `detect_package_extension` picks: `rpm` exactly when
/// the text names an RPM-based distribution (CentOS, Fedora, RHEL, Rocky,
/// AlmaLinux, or one like RHEL); otherwise `deb` exactly when it names Debian,
/// Ubuntu or one like Debian; and no format otherwise.
pub proof fn lemma_package_extension_markers(t: Seq<char>)
    ensures
        holds_any(t, rpm_markers()) == names_rpm_distribution(t),
        holds_any(t, deb_markers()) == names_debian_distribution(t),
{
    let r = rpm_markers();
    let d = deb_markers();
    if names_rpm_distribution(t) {
        if contains_text(t, "ID_LIKE=rhel"@) {
            assert(contains_text(t, r[0]));
        } else if contains_text(t, "ID_LIKE=\"rhel"@) {
            assert(contains_text(t, r[1]));
        } else if contains_text(t, "ID=centos"@) {
            assert(contains_text(t, r[2]));
        } else if contains_text(t, "ID=fedora"@) {
            assert(contains_text(t, r[3]));
        } else if contains_text(t, "ID=rhel"@) {
            assert(contains_text(t, r[4]));
        } else if contains_text(t, "ID=rocky"@) {
            assert(contains_text(t, r[5]));
        } else {
            assert(contains_text(t, r[6]));
        }
    }
    if holds_any(t, r) {
        let k = choose|k: int| 0 <= k < r.len() && contains_text(t, #[trigger] r[k]);
        assert(names_rpm_distribution(t));
    }
    if names_debian_distribution(t) {
        if contains_text(t, "ID_LIKE=debian"@) {
            assert(contains_text(t, d[0]));
        } else if contains_text(t, "ID_LIKE=\"debian"@) {
            assert(contains_text(t, d[1]));
        } else if contains_text(t, "ID=debian"@) {
            assert(contains_text(t, d[2]));
        } else {
            assert(contains_text(t, d[3]));
        }
    }
    if holds_any(t, d) {
        let k = choose|k: int| 0 <= k < d.len() && contains_text(t, #[trigger] d[k]);
        assert(names_debian_distribution(t));
    }
}

/// An os-release text that names Debian (`ID=debian`, as Debian's own file
/// does, with no `ID_LIKE` line) and no RPM-based distribution selects `deb`.
pub proof fn lemma_debian_selects_deb(t: Seq<char>)
    requires
        contains_text(t, "ID=debian"@),
        !names_rpm_distribution(t),
    ensures
        !holds_any(t, rpm_markers()),
        holds_any(t, deb_markers()),
{
    lemma_package_extension_markers(t);
}

} // verus!
