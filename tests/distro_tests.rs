use sysdeps::distro::{
    codename_from_table, codename_source, cross_setup_commands, install_command, parse_os_release,
    release_is_numeric, split_override, Distro, DistroError,
};

fn s(x: &str) -> String {
    x.to_string()
}

const TABLE: &str = "version,codename,series,created\n20.04 LTS,Focal Fossa,focal,2019-10-17\n22.04 LTS,Jammy Jellyfish,jammy,2021-10-14\n23\n24,Only Name\n12,Bookworm,bookworm\n";

#[test]
fn override_splits_at_first_hyphen() {
    let d = split_override("ubuntu-22.04");
    assert_eq!((d.name, d.version), (s("ubuntu"), s("22.04")));
    let d = split_override("debian-sid-x");
    assert_eq!((d.name, d.version), (s("debian"), s("sid-x")));
    let d = split_override("archlinux");
    assert_eq!((d.name, d.version), (s("arch"), s("")));
}

#[test]
fn numeric_release_detection() {
    assert!(release_is_numeric(&s("22.04")));
    assert!(!release_is_numeric(&s("jammy")));
    assert!(!release_is_numeric(&s("")));
}

#[test]
fn codename_table_lookup() {
    assert_eq!(codename_from_table(TABLE, &s("22.04")).unwrap(), s("jammy"));
    assert_eq!(codename_from_table(TABLE, &s("20.04")).unwrap(), s("focal"));
    assert_eq!(codename_from_table(TABLE, &s("12")).unwrap(), s("bookworm"));
    assert!(matches!(codename_from_table(TABLE, &s("24")), Err(DistroError::NoCodename)));
    assert_eq!(codename_from_table(TABLE, &s("99")).unwrap(), s("99"));
    assert!(matches!(codename_from_table(TABLE, &s("23")), Err(DistroError::NoCodename)));
    assert!(codename_source(&s("debian")).unwrap().ends_with("debian.csv"));
    assert!(codename_source(&s("ubuntu")).unwrap().ends_with("ubuntu.csv"));
    assert_eq!(codename_source(&s("arch")), None);
}

#[test]
fn os_release_prefers_codename() {
    let d = parse_os_release("NAME=\"Debian\"\nID=debian\nVERSION_ID=\"12\"\nVERSION_CODENAME=bookworm\n");
    assert_eq!((d.name, d.version), (s("debian"), s("bookworm")));
    let d = parse_os_release("ID=\"arch\"\nVERSION_ID=rolling");
    assert_eq!((d.name, d.version), (s("arch"), s("rolling")));
    let d = parse_os_release("ID=fedora\nVERSION_ID=40\nVERSION_CODENAME=\n");
    assert_eq!((d.name, d.version), (s("fedora"), s("40")));
}

#[test]
fn install_with_apt_and_arch() {
    let d = Distro { name: s("ubuntu"), version: s("jammy") };
    let c = install_command(&d, "libfoo-dev\n\nzlib1g-dev\n", &Some(s("arm64"))).unwrap().unwrap();
    assert_eq!(c.program, s("apt-get"));
    assert_eq!(c.args, vec![s("install"), s("-y"), s("libfoo-dev:arm64"), s("zlib1g-dev:arm64")]);
    let d = Distro { name: s("arch"), version: s("") };
    let c = install_command(&d, "zlib", &None).unwrap().unwrap();
    assert_eq!(c.program, s("pacman"));
    assert_eq!(c.args, vec![s("-S"), s("--needed"), s("--noconfirm"), s("zlib")]);
}

#[test]
fn install_empty_list_and_unsupported() {
    let d = Distro { name: s("gentoo"), version: s("1") };
    assert!(matches!(install_command(&d, "\n\n", &None), Ok(None)));
    match install_command(&d, "zlib\n", &None) {
        Err(DistroError::Unsupported(n)) => assert_eq!(n, s("gentoo")),
        _ => panic!("expected an unsupported family"),
    }
}

#[test]
fn cross_setup_on_apt_only() {
    let d = Distro { name: s("debian"), version: s("bookworm") };
    let c = cross_setup_commands(&d, &s("arm64"));
    assert_eq!(c.len(), 2);
    assert_eq!(c[0].program, s("dpkg"));
    assert_eq!(c[0].args, vec![s("--add-architecture"), s("arm64")]);
    assert_eq!(c[1].args, vec![s("update")]);
    let d = Distro { name: s("arch"), version: s("") };
    assert!(cross_setup_commands(&d, &s("arm64")).is_empty());
}
