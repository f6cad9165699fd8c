use ssh_knock::update::{
    check_digest, detect_architecture, detect_package_extension, digest_failure_message,
    install_command, selection_failure_message,
    is_current_release, package_arch_names, select_release_asset, verify_package_digest,
    GitHubRelease, ReleaseAsset, UpdateError,
};

const ABC_SHA256: &str = "ba7816bf8f01cfea414140de5dae2223b00361a396177a9cb410ff61f20015ad";

fn asset(name: &str, digest: Option<String>) -> ReleaseAsset {
    ReleaseAsset {
        name: name.to_string(),
        browser_download_url: format!("https://example.invalid/{name}"),
        digest,
    }
}

#[test]
fn verifies_sha256_digest_of_the_package() {
    let good = asset("pkg.deb", Some(format!("sha256:{ABC_SHA256}")));
    assert_eq!(verify_package_digest(&good, b"abc"), Ok(()));
    let upper = asset("pkg.deb", Some(format!("sha256:{}", ABC_SHA256.to_uppercase())));
    assert_eq!(verify_package_digest(&upper, b"abc"), Ok(()));
    assert_eq!(verify_package_digest(&good, b"abd"), Err(UpdateError::DigestMismatch));
}

#[test]
fn refuses_missing_or_malformed_digests() {
    assert_eq!(verify_package_digest(&asset("p", None), b"abc"), Err(UpdateError::MissingDigest));
    let md5 = asset("p", Some("md5:900150983cd24fb0d6963f7d28e17f72".to_string()));
    assert_eq!(verify_package_digest(&md5, b"abc"), Err(UpdateError::DigestNotSha256));
    let short = asset("p", Some("sha256:abcd".to_string()));
    assert_eq!(verify_package_digest(&short, b"abc"), Err(UpdateError::InvalidDigest));
    let not_hex = asset("p", Some(format!("sha256:{}", "g".repeat(64))));
    assert_eq!(verify_package_digest(&not_hex, b"abc"), Err(UpdateError::InvalidDigest));
}

#[test]
fn check_digest_compares_against_the_given_digest() {
    let digest: Vec<u8> = (0u8..32).collect();
    let hex: String = digest.iter().map(|b| format!("{b:02x}")).collect();
    assert_eq!(check_digest(Some(&format!("sha256:{hex}")), &digest), Ok(()));
    assert_eq!(check_digest(Some(&format!("sha256:{hex}")), &[0u8; 32]), Err(UpdateError::DigestMismatch));
    assert_eq!(check_digest(None, &digest), Err(UpdateError::MissingDigest));
}

#[test]
fn maps_architectures_to_package_names() {
    assert_eq!(package_arch_names("deb", "amd64").unwrap(), vec!["amd64"]);
    assert_eq!(package_arch_names("deb", "arm64").unwrap(), vec!["arm64"]);
    assert_eq!(package_arch_names("rpm", "amd64").unwrap(), vec!["x86_64"]);
    assert_eq!(package_arch_names("rpm", "arm64").unwrap(), vec!["aarch64", "arm64"]);
    assert_eq!(package_arch_names("apk", "amd64"), Err(UpdateError::UnsupportedArchMapping));
    assert_eq!(detect_architecture("x86_64"), Ok("amd64"));
    assert_eq!(detect_architecture("aarch64"), Ok("arm64"));
    assert_eq!(detect_architecture("riscv64"), Err(UpdateError::UnsupportedArchitecture));
}

#[test]
fn selects_the_first_matching_asset() {
    let release = GitHubRelease {
        tag_name: "v0.2.5".to_string(),
        assets: vec![
            asset("sshknockd_0.2.5_amd64.deb.sig", None),
            asset("sshknockd-0.2.5.x86_64.rpm", None),
            asset("sshknockd-0.2.5.aarch64.rpm", None),
            asset("sshknockd_0.2.5_arm64.deb", None),
            asset("sshknockd_0.2.5_amd64.deb", None),
        ],
    };
    assert_eq!(select_release_asset(&release, "deb", "amd64").unwrap().name, "sshknockd_0.2.5_amd64.deb");
    assert_eq!(select_release_asset(&release, "rpm", "arm64").unwrap().name, "sshknockd-0.2.5.aarch64.rpm");
    assert_eq!(select_release_asset(&release, "rpm", "amd64").unwrap().name, "sshknockd-0.2.5.x86_64.rpm");
    let empty = GitHubRelease { tag_name: "v1".to_string(), assets: vec![] };
    assert_eq!(select_release_asset(&empty, "deb", "amd64").unwrap_err(), UpdateError::NoMatchingAsset);
    assert_eq!(select_release_asset(&release, "zip", "amd64").unwrap_err(), UpdateError::UnsupportedArchMapping);
}

#[test]
fn detects_distribution_family() {
    assert_eq!(detect_package_extension("NAME=Fedora\nID=fedora\n"), Ok("rpm"));
    assert_eq!(detect_package_extension("ID=rocky\nID_LIKE=\"rhel centos fedora\"\n"), Ok("rpm"));
    assert_eq!(detect_package_extension("ID=ubuntu\nID_LIKE=debian\n"), Ok("deb"));
    assert_eq!(detect_package_extension("ID=linuxmint\nID_LIKE=\"debian ubuntu\"\n"), Ok("deb"));
    assert_eq!(detect_package_extension("ID=alpine\n"), Err(UpdateError::UnsupportedDistribution));
}

#[test]
fn compares_release_tag_with_running_version() {
    assert!(is_current_release("v0.2.4", "0.2.4"));
    assert!(is_current_release("0.2.4", "0.2.4"));
    assert!(is_current_release("vv0.2.4", "0.2.4"));
    assert!(!is_current_release("v0.2.5", "0.2.4"));
    assert!(!is_current_release("v0.2.4-rc1", "0.2.4"));
}

#[test]
fn installs_with_the_package_manager_of_the_format() {
    let deb = install_command("deb", "/tmp/p.deb").unwrap();
    assert_eq!(deb.program, "dpkg");
    assert_eq!(deb.args, vec!["-i", "/tmp/p.deb"]);
    let rpm = install_command("rpm", "/tmp/p.rpm").unwrap();
    assert_eq!(rpm.program, "rpm");
    assert_eq!(rpm.args, vec!["-Uvh", "/tmp/p.rpm"]);
    assert_eq!(install_command("tgz", "/tmp/p").unwrap_err(), UpdateError::UnsupportedExtension);
}

#[test]
fn digest_failures_name_the_asset_and_both_hashes() {
    let missing = asset("pkg.deb", None);
    assert_eq!(
        digest_failure_message(UpdateError::MissingDigest, &missing, b"abc"),
        "release asset pkg.deb does not contain a digest"
    );
    let md5 = asset("pkg.deb", Some("md5:900150983cd24fb0d6963f7d28e17f72".to_string()));
    assert_eq!(
        digest_failure_message(UpdateError::DigestNotSha256, &md5, b"abc"),
        "release asset pkg.deb digest is not sha256"
    );
    let short = asset("pkg.deb", Some("sha256:abcd".to_string()));
    assert_eq!(
        digest_failure_message(UpdateError::InvalidDigest, &short, b"abc"),
        "release asset pkg.deb has an invalid sha256 digest"
    );
    let good = asset("pkg.deb", Some(format!("sha256:{}", ABC_SHA256.to_uppercase())));
    assert_eq!(verify_package_digest(&good, b"abd"), Err(UpdateError::DigestMismatch));
    assert_eq!(
        digest_failure_message(UpdateError::DigestMismatch, &good, b"abc"),
        format!(
            "downloaded package digest mismatch for pkg.deb: expected sha256:{}, got sha256:{}",
            ABC_SHA256.to_uppercase(),
            ABC_SHA256
        )
    );
}

#[test]
fn selection_failures_name_the_extension_and_architectures() {
    assert_eq!(
        selection_failure_message(UpdateError::NoMatchingAsset, "deb", "amd64"),
        "release does not contain a .deb package for any of: amd64"
    );
    assert_eq!(
        selection_failure_message(UpdateError::NoMatchingAsset, "rpm", "arm64"),
        "release does not contain a .rpm package for any of: aarch64, arm64"
    );
    assert_eq!(
        selection_failure_message(UpdateError::UnsupportedArchMapping, "zip", "amd64"),
        "unsupported package architecture mapping"
    );
}
