use sysdeps::distro::Distro;
use sysdeps::index::{archive_entry_row, contents_line_row, ReverseIndex};
use sysdeps::resolve::{fetch_mode, hyphenate, index_file_name, index_sources, sources_to_fetch, Fetch};

fn s(x: &str) -> String {
    x.to_string()
}

fn sample_index() -> ReverseIndex {
    let mut idx = ReverseIndex::new();
    idx.insert(s("libfoo"), s("pkg2"));
    idx.insert(s("gtk-3"), s("libgtk-3-dev"));
    idx.insert(s("zlib"), s("zlib1g-dev"));
    idx
}

#[test]
fn contents_line_takes_last_owner() {
    let r = contents_line_row("usr/lib/x86_64-linux-gnu/pkgconfig/libfoo.pc pkg1,pkg2");
    assert_eq!(r, Some((s("libfoo"), s("pkg2"))));
}

#[test]
fn contents_line_into_index_maps_basename() {
    let mut idx = ReverseIndex::new();
    idx.add_contents_line("usr/lib/x86_64-linux-gnu/pkgconfig/libfoo.pc pkg1,pkg2");
    assert_eq!(idx.get(&s("libfoo")), Some(s("pkg2")));
    assert_eq!(idx.len(), 1);
}

#[test]
fn contents_line_drops_section() {
    let r = contents_line_row("usr/lib/pkgconfig/zlib.pc   libs/zlib1g-dev");
    assert_eq!(r, Some((s("zlib"), s("zlib1g-dev"))));
    let r = contents_line_row("usr/lib/pkgconfig/x.pc\tlibs/a,devel/b");
    assert_eq!(r, Some((s("x"), s("b"))));
}

#[test]
fn contents_line_ignores_other_files() {
    assert_eq!(contents_line_row("usr/share/doc/foo.pc pkg"), None);
    assert_eq!(contents_line_row("usr/lib/pkgconfig/foo.txt pkg"), None);
    assert_eq!(contents_line_row("usr/lib/pkgconfig/foo.pc"), None);
    assert_eq!(contents_line_row(""), None);
    assert_eq!(contents_line_row("FILE LOCATION"), None);
}

#[test]
fn archive_entry_maps_stem_to_first_component() {
    assert_eq!(
        archive_entry_row("zlib-1.3-1/usr/lib/pkgconfig/zlib.pc"),
        Some((s("zlib"), s("zlib-1.3-1")))
    );
    assert_eq!(archive_entry_row("zlib-1.3-1/files"), None);
    assert_eq!(archive_entry_row("zlib-1.3-1/.pc"), None);
}

#[test]
fn later_row_overrides_earlier() {
    let mut idx = ReverseIndex::new();
    idx.add_contents_line("usr/lib/pkgconfig/foo.pc a");
    idx.add_contents_line("usr/lib/x86_64-linux-gnu/pkgconfig/foo.pc b");
    assert_eq!(idx.get(&s("foo")), Some(s("b")));
    assert_eq!(idx.get(&s("bar")), None);
}

#[test]
fn present_identifier_resolves_exactly() {
    let idx = sample_index();
    let r = idx.resolve(&vec![s("libfoo"), s("zlib")]);
    let mut p = r.packages.clone();
    p.sort();
    assert_eq!(p, vec![s("pkg2"), s("zlib1g-dev")]);
    assert!(r.missing.is_empty());
}

#[test]
fn underscore_identifier_falls_back_to_hyphen() {
    let idx = sample_index();
    assert_eq!(hyphenate(&s("gtk_3_x")), s("gtk-3-x"));
    assert_eq!(idx.resolve_dependency(&s("gtk_3")), Some(s("libgtk-3-dev")));
    let r = idx.resolve(&vec![s("gtk_3")]);
    assert_eq!(r.packages, vec![s("libgtk-3-dev")]);
}

#[test]
fn unresolvable_identifier_dropped_without_error() {
    let idx = sample_index();
    let r = idx.resolve(&vec![s("libfoo"), s("nope_lib"), s("zlib")]);
    assert_eq!(r.packages.len(), 2);
    assert_eq!(r.missing, vec![s("nope_lib")]);
    assert_eq!(idx.resolve_dependency(&s("nope_lib")), None);
}

#[test]
fn duplicate_packages_collapse() {
    let idx = sample_index();
    let r = idx.resolve(&vec![s("libfoo"), s("libfoo"), s("gtk-3"), s("gtk_3")]);
    assert_eq!(r.packages.len(), 2);
}

#[test]
fn cache_text_format() {
    let mut idx = ReverseIndex::new();
    idx.insert(s("a"), s("b"));
    idx.insert(s("c"), s("d e"));
    assert_eq!(idx.to_cache_text(), s("a b\nc d e\n"));
}

#[test]
fn cache_round_trip_keeps_mapping() {
    let idx = sample_index();
    let text = idx.to_cache_text();
    let back = ReverseIndex::from_cache_text(&text);
    assert_eq!(back.len(), idx.len());
    for k in ["libfoo", "gtk-3", "zlib", "absent"] {
        assert_eq!(back.get(&s(k)), idx.get(&s(k)));
    }
}

#[test]
fn cache_reading_handles_crlf_and_junk() {
    let idx = ReverseIndex::from_cache_text("a b\r\nnospace\n\nc d\r");
    assert_eq!(idx.len(), 2);
    assert_eq!(idx.get(&s("a")), Some(s("b")));
    assert_eq!(idx.get(&s("c")), Some(s("d\r")));
    assert_eq!(ReverseIndex::from_cache_text("").len(), 0);
}

#[test]
fn cached_resolution_is_stable() {
    let built = sample_index();
    let cached = ReverseIndex::from_cache_text(&built.to_cache_text());
    let deps = vec![s("libfoo"), s("gtk_3"), s("missing")];
    let first = cached.resolve(&deps);
    let second = cached.resolve(&deps);
    let direct = built.resolve(&deps);
    assert_eq!(first.packages, second.packages);
    assert_eq!(first.packages, direct.packages);
    assert_eq!(first.missing, direct.missing);
    let d = Distro { name: s("debian"), version: s("bookworm") };
    assert!(sources_to_fetch(&d, true).is_empty());
    assert_eq!(sources_to_fetch(&d, false).len(), 1);
}

#[test]
fn sources_per_family() {
    let d = Distro { name: s("debian"), version: s("bookworm") };
    let v = index_sources(&d);
    assert_eq!(v.len(), 1);
    assert_eq!(v[0].url, s("http://deb.debian.org/debian/dists/bookworm/main/Contents-amd64.gz"));
    assert_eq!(v[0].file_name, s("Contents-amd64.gz"));
    assert!(!v[0].archive);
    let u = index_sources(&Distro { name: s("ubuntu"), version: s("jammy") });
    assert_eq!(u.len(), 2);
    assert_eq!(u[1].url, s("http://archive.ubuntu.com/ubuntu/dists/jammy/universe/Contents-amd64.gz"));
    let a = index_sources(&Distro { name: s("arch"), version: s("") });
    assert_eq!(a.len(), 2);
    assert_eq!(a[0].file_name, s("core.files.tar.gz"));
    assert!(a[0].archive);
    assert!(index_sources(&Distro { name: s("gentoo"), version: s("1") }).is_empty());
}

#[test]
fn index_file_and_fetch_mode() {
    let d = Distro { name: s("debian"), version: s("bookworm") };
    assert_eq!(index_file_name(&d), s("debian-bookworm-pc.index"));
    assert_eq!(fetch_mode(true, true), Fetch::Stream);
    assert_eq!(fetch_mode(false, true), Fetch::ReadCached);
    assert_eq!(fetch_mode(false, false), Fetch::DownloadAndKeep);
}

#[test]
fn cache_text_has_one_line_per_basename() {
    let mut idx = ReverseIndex::new();
    idx.add_contents_line("usr/lib/pkgconfig/foo.pc a");
    idx.add_contents_line("usr/lib/pkgconfig/bar.pc c");
    idx.add_contents_line("usr/lib/x86_64-linux-gnu/pkgconfig/foo.pc b");
    assert_eq!(idx.len(), 2);
    assert_eq!(idx.to_cache_text(), s("foo b\nbar c\n"));
    let back = ReverseIndex::from_cache_text("k v1\nk v2\n");
    assert_eq!(back.len(), 1);
    assert_eq!(back.get(&s("k")), Some(s("v2")));
}
