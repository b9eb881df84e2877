//! The target distribution: its family and release, how they are read from an explicit
//! override or from os-release data, and the package-manager commands derived from them.
use vstd::prelude::*;
use crate::names::views;
use crate::text::{
    chars_of, copy_range, first_index, first_index_from, has_prefix, has_prefix_exec, is_text,
    lemma_first_index_bounds, split_lines, string_of, text_lines, trim_char, trim_char_exec,
};

verus! {

/// A distribution family (`debian`, `ubuntu`, `arch`, ...) and its release, a version
/// number or a codename.
#[derive(Debug, Clone)]
pub struct Distro {
    pub name: String,
    pub version: String,
}

/// Why a distribution decision failed.
#[derive(Debug, Clone)]
pub enum DistroError {
    /// The release table has a row for the version but no series column.
    NoCodename,
    /// The family has no supported package manager; it holds the family's name.
    Unsupported(String),
}

/// A program and its arguments.
#[derive(Debug, Clone)]
pub struct Command {
    pub program: String,
    pub args: Vec<String>,
}

/// An override `family-release` split at its first hyphen; without a hyphen, the
/// family is `arch` with an empty release.
pub open spec fn override_parts(s: Seq<char>) -> (Seq<char>, Seq<char>) {
    let i = first_index_from(s, '-', 0);
    if i < s.len() {
        (s.subrange(0, i), s.subrange(i + 1, s.len() as int))
    } else {
        ("arch"@, Seq::empty())
    }
}

/// The family and the release, as written, of an override.
pub fn split_override(s: &str) -> (r: Distro)
    ensures
        (r.name@, r.version@) == override_parts(s@),
{
    let c = chars_of(s);
    let i = first_index(&c, '-', 0);
    proof {
        lemma_first_index_bounds(c@, '-', 0);
    }
    if i < c.len() {
        let n = copy_range(&c, 0, i);
        let v = copy_range(&c, i + 1, c.len());
        Distro { name: string_of(&n), version: string_of(&v) }
    } else {
        Distro { name: String::from_str("arch"), version: String::new() }
    }
}

/// A release that starts with an ASCII digit is a version number, to be translated
/// into a codename.
pub open spec fn numeric_release(v: Seq<char>) -> bool {
    v.len() > 0 && 0x30 <= (v[0] as u32) && (v[0] as u32) <= 0x39
}

/// Whether a release is a version number rather than a codename.
pub fn release_is_numeric(v: &String) -> (r: bool)
    ensures
        r == numeric_release(v@),
{
    let c = chars_of(v.as_str());
    if c.len() == 0 {
        return false;
    }
    let u = c[0] as u32;
    0x30 <= u && u <= 0x39
}

/// The release table that translates version numbers of a family into codenames.
pub open spec fn codename_table_url(family: Seq<char>) -> Option<Seq<char>> {
    if family == "debian"@ {
        Some("https://salsa.debian.org/debian/distro-info-data/-/raw/main/debian.csv"@)
    } else if family == "ubuntu"@ {
        Some("https://salsa.debian.org/debian/distro-info-data/-/raw/main/ubuntu.csv"@)
    } else {
        None
    }
}

/// Where the release table of a family is; a family without one keeps its release as is.
pub fn codename_source(family: &String) -> (r: Option<String>)
    ensures
        match r {
            Some(u) => codename_table_url(family@) == Some(u@),
            None => codename_table_url(family@).is_none(),
        },
{
    if is_text(family, "debian") {
        Some(String::from_str("https://salsa.debian.org/debian/distro-info-data/-/raw/main/debian.csv"))
    } else if is_text(family, "ubuntu") {
        Some(String::from_str("https://salsa.debian.org/debian/distro-info-data/-/raw/main/ubuntu.csv"))
    } else {
        None
    }
}

/// The first comma-separated column of a line.
pub open spec fn first_column(l: Seq<char>) -> Seq<char> {
    l.subrange(0, first_index_from(l, ',', 0))
}

/// The third comma-separated column of a line, if the line has one. In a release
/// table it holds the series: the lower-case codename that archive paths and
/// os-release's `VERSION_CODENAME` use (the second column holds the display name).
pub open spec fn third_column(l: Seq<char>) -> Option<Seq<char>> {
    let i = first_index_from(l, ',', 0);
    let j = first_index_from(l, ',', i + 1);
    if i < l.len() && j < l.len() {
        Some(l.subrange(j + 1, first_index_from(l, ',', j + 1)))
    } else {
        None
    }
}

/// A version column names the version `v`: it is `v`, or `v` followed by a space.
pub open spec fn names_version(col: Seq<char>, v: Seq<char>) -> bool {
    col == v || has_prefix(col, v + seq![' '])
}

/// The codename of version `v` in the release table lines: the series column of the
/// first line whose first column names `v` (an error if it has none); `v` itself when
/// no line names it.
pub open spec fn codename_lookup(lines: Seq<Seq<char>>, v: Seq<char>) -> Result<Seq<char>, ()>
    decreases lines.len(),
{
    if lines.len() == 0 {
        Ok(v)
    } else if names_version(first_column(lines[0]), v) {
        match third_column(lines[0]) {
            Some(c) => Ok(c),
            None => Err(()),
        }
    } else {
        codename_lookup(lines.drop_first(), v)
    }
}

/// The codename of `version`, in the form archive paths use, according to a release
/// table in comma-separated form (`version,codename,series,...`).
pub fn codename_from_table(table: &str, version: &String) -> (r: Result<String, DistroError>)
    ensures
        match codename_lookup(text_lines(table@), version@) {
            Ok(c) => r.is_ok() && r.unwrap()@ == c,
            Err(_) => r matches Err(DistroError::NoCodename),
        },
{
    let lines = split_lines(table);
    let ghost ls = lines@.map_values(|l: Vec<char>| l@);
    let v = chars_of(version.as_str());
    let mut prefix = chars_of(version.as_str());
    prefix.push(' ');
    let mut i: usize = 0;
    assert(ls.subrange(0, ls.len() as int) =~= ls);
    while i < lines.len()
        invariant
            i <= lines.len(),
            ls == lines@.map_values(|l: Vec<char>| l@),
            ls == text_lines(table@),
            v@ == version@,
            prefix@ == version@ + seq![' '],
            codename_lookup(ls, version@) == codename_lookup(ls.subrange(i as int, ls.len() as int), version@),
        decreases lines.len() - i,
    {
        let l = &lines[i];
        let f = first_index(l, ',', 0);
        proof {
            lemma_first_index_bounds(l@, ',', 0);
        }
        let col = copy_range(l, 0, f);
        let named = col.len() == v.len() && has_prefix_exec(&col, &v) || has_prefix_exec(&col, &prefix);
        proof {
            let rest = ls.subrange(i as int, ls.len() as int);
            assert(rest[0] == l@);
            assert(rest.drop_first() =~= ls.subrange(i + 1, ls.len() as int));
            if col@.len() == v@.len() && has_prefix(col@, v@) {
                assert(col@ =~= v@);
            }
            if col@ == v@ {
                assert(col@.subrange(0, v@.len() as int) =~= col@);
            }
        }
        if named {
            if f < l.len() {
                let g = first_index(l, ',', f + 1);
                proof {
                    lemma_first_index_bounds(l@, ',', f + 1);
                }
                if g < l.len() {
                    let h = first_index(l, ',', g + 1);
                    proof {
                        lemma_first_index_bounds(l@, ',', g + 1);
                    }
                    let c = copy_range(l, g + 1, h);
                    return Ok(string_of(&c));
                }
            }
            return Err(DistroError::NoCodename);
        }
        i += 1;
    }
    Ok(version.clone())
}

/// A line `key=value` split at its first `=`.
pub open spec fn key_value(l: Seq<char>) -> Option<(Seq<char>, Seq<char>)> {
    let i = first_index_from(l, '=', 0);
    if i < l.len() {
        Some((l.subrange(0, i), l.subrange(i + 1, l.len() as int)))
    } else {
        None
    }
}

/// The value of the last line for `key`, without surrounding quotes; empty if none.
pub open spec fn os_field(lines: Seq<Seq<char>>, key: Seq<char>) -> Seq<char>
    decreases lines.len(),
{
    if lines.len() == 0 {
        Seq::empty()
    } else {
        let kv = key_value(lines.last());
        if kv.is_some() && kv.unwrap().0 == key {
            trim_char(kv.unwrap().1, '"')
        } else {
            os_field(lines.drop_last(), key)
        }
    }
}

/// The distribution that os-release data describes: the family from `ID`, the release
/// from `VERSION_CODENAME` when that is not empty, else from `VERSION_ID`.
pub open spec fn os_release_parts(text: Seq<char>) -> (Seq<char>, Seq<char>) {
    let ls = text_lines(text);
    let c = os_field(ls, "VERSION_CODENAME"@);
    (os_field(ls, "ID"@), if c.len() > 0 { c } else { os_field(ls, "VERSION_ID"@) })
}

/// The distribution that os-release data describes.
pub fn parse_os_release(text: &str) -> (r: Distro)
    ensures
        (r.name@, r.version@) == os_release_parts(text@),
{
    let lines = split_lines(text);
    let ghost ls = lines@.map_values(|l: Vec<char>| l@);
    let mut n = String::new();
    let mut v = String::new();
    let mut c = String::new();
    let mut i: usize = 0;
    while i < lines.len()
        invariant
            i <= lines.len(),
            ls == lines@.map_values(|l: Vec<char>| l@),
            ls == text_lines(text@),
            n@ == os_field(ls.subrange(0, i as int), "ID"@),
            v@ == os_field(ls.subrange(0, i as int), "VERSION_ID"@),
            c@ == os_field(ls.subrange(0, i as int), "VERSION_CODENAME"@),
        decreases lines.len() - i,
    {
        let l = &lines[i];
        let e = first_index(l, '=', 0);
        proof {
            lemma_first_index_bounds(l@, '=', 0);
            let post = ls.subrange(0, i + 1);
            assert(post.drop_last() =~= ls.subrange(0, i as int));
            assert(post.last() == l@);
        }
        if e < l.len() {
            let k = string_of(&copy_range(l, 0, e));
            let raw = copy_range(l, e + 1, l.len());
            let val = string_of(&trim_char_exec(&raw, '"'));
            proof {
                reveal_strlit("ID");
                reveal_strlit("VERSION_ID");
                reveal_strlit("VERSION_CODENAME");
                assert(key_value(l@) == Some((k@, raw@)));
                assert("ID"@.len() == 2 && "VERSION_ID"@.len() == 10);
                assert("VERSION_CODENAME"@.len() == 16);
            }
            if is_text(&k, "ID") {
                n = val;
            } else if is_text(&k, "VERSION_ID") {
                v = val;
            } else if is_text(&k, "VERSION_CODENAME") {
                c = val;
            }
        }
        i += 1;
    }
    assert(ls.subrange(0, lines.len() as int) =~= ls);
    let version = if c.as_str().unicode_len() > 0 {
        c
    } else {
        v
    };
    Distro { name: n, version }
}

/// The lines of a package list that are not empty, in order.
pub open spec fn nonempty_lines(ls: Seq<Seq<char>>) -> Seq<Seq<char>>
    decreases ls.len(),
{
    if ls.len() == 0 {
        Seq::empty()
    } else if ls.last().len() > 0 {
        nonempty_lines(ls.drop_last()).push(ls.last())
    } else {
        nonempty_lines(ls.drop_last())
    }
}

/// A package name qualified with a target architecture, if one is given.
pub open spec fn qualified(p: Seq<char>, arch: Option<Seq<char>>) -> Seq<char> {
    match arch {
        Some(a) => p + ":"@ + a,
        None => p,
    }
}

/// The text of an optional string.
pub open spec fn opt_view(a: Option<String>) -> Option<Seq<char>> {
    match a {
        Some(s) => Some(s@),
        None => None,
    }
}

/// A family whose packages come from apt.
pub open spec fn apt_family(family: Seq<char>) -> bool {
    family == "debian"@ || family == "ubuntu"@
}

/// The package manager of a family and the arguments that come before the packages.
pub open spec fn installer_of(family: Seq<char>) -> Option<(Seq<char>, Seq<Seq<char>>)> {
    if apt_family(family) {
        Some(("apt-get"@, seq!["install"@, "-y"@]))
    } else if family == "arch"@ {
        Some(("pacman"@, seq!["-S"@, "--needed"@, "--noconfirm"@]))
    } else {
        None
    }
}

fn is_apt_family(family: &String) -> (r: bool)
    ensures
        r == apt_family(family@),
{
    is_text(family, "debian") || is_text(family, "ubuntu")
}

/// The outcome is the error for the family `name`, which has no package manager.
pub open spec fn unsupported(r: Result<Option<Command>, DistroError>, name: Seq<char>) -> bool {
    match r {
        Err(DistroError::Unsupported(n)) => n@ == name,
        _ => false,
    }
}

/// The outcome is a command that runs `program` with `args`.
pub open spec fn runs(
    r: Result<Option<Command>, DistroError>,
    program: Seq<char>,
    args: Seq<Seq<char>>,
) -> bool {
    match r {
        Ok(Some(c)) => c.program@ == program && views(c.args@) == args,
        _ => false,
    }
}

/// The command that installs the packages listed one per line in `list`: nothing to
/// run when the list has no package; an error when the family has no package manager.
pub fn install_command(d: &Distro, list: &str, arch: &Option<String>) -> (r: Result<
    Option<Command>,
    DistroError,
>)
    ensures
        ({
            let pkgs = nonempty_lines(text_lines(list@));
            &&& pkgs.len() == 0 ==> r == Ok::<Option<Command>, DistroError>(None)
            &&& pkgs.len() > 0 && installer_of(d.name@).is_none() ==> unsupported(r, d.name@)
            &&& pkgs.len() > 0 && installer_of(d.name@).is_some() ==> runs(
                r,
                installer_of(d.name@).unwrap().0,
                installer_of(d.name@).unwrap().1 + pkgs.map_values(
                    |p: Seq<char>| qualified(p, opt_view(*arch)),
                ),
            )
        }),
{
    let lines = split_lines(list);
    let ghost ls = lines@.map_values(|l: Vec<char>| l@);
    let mut pkgs: Vec<String> = Vec::new();
    let mut i: usize = 0;
    while i < lines.len()
        invariant
            i <= lines.len(),
            ls == lines@.map_values(|l: Vec<char>| l@),
            views(pkgs@) == nonempty_lines(ls.subrange(0, i as int)).map_values(
                |p: Seq<char>| qualified(p, opt_view(*arch)),
            ),
            nonempty_lines(ls.subrange(0, i as int)).len() == pkgs@.len(),
        decreases lines.len() - i,
    {
        let ghost before = pkgs@;
        let ghost post = ls.subrange(0, i + 1);
        proof {
            assert(post.drop_last() =~= ls.subrange(0, i as int));
            assert(post.last() == lines@[i as int]@);
        }
        if lines[i].len() > 0 {
            let mut p = string_of(&lines[i]);
            match arch {
                Some(a) => {
                    p.append(":");
                    p.append(a.as_str());
                },
                None => {},
            }
            pkgs.push(p);
            proof {
                assert(nonempty_lines(post) == nonempty_lines(ls.subrange(0, i as int)).push(
                    post.last(),
                ));
                assert(views(pkgs@) =~= views(before).push(p@));
                assert(views(pkgs@) =~= nonempty_lines(post).map_values(
                    |p: Seq<char>| qualified(p, opt_view(*arch)),
                ));
            }
        }
        i += 1;
    }
    assert(ls.subrange(0, lines.len() as int) =~= ls);
    if pkgs.len() == 0 {
        return Ok(None);
    }
    let mut args: Vec<String> = Vec::new();
    let program;
    if is_apt_family(&d.name) {
        program = String::from_str("apt-get");
        args.push(String::from_str("install"));
        args.push(String::from_str("-y"));
    } else if is_text(&d.name, "arch") {
        program = String::from_str("pacman");
        args.push(String::from_str("-S"));
        args.push(String::from_str("--needed"));
        args.push(String::from_str("--noconfirm"));
    } else {
        return Err(DistroError::Unsupported(d.name.clone()));
    }
    let ghost base = views(args@);
    assert(base == installer_of(d.name@).unwrap().1);
    let mut j: usize = 0;
    while j < pkgs.len()
        invariant
            j <= pkgs.len(),
            views(args@) == base + views(pkgs@).subrange(0, j as int),
        decreases pkgs.len() - j,
    {
        let ghost before = args@;
        args.push(pkgs[j].clone());
        assert(views(args@) =~= views(before).push(views(pkgs@)[j as int]));
        j += 1;
        assert(views(args@) =~= base + views(pkgs@).subrange(0, j as int));
    }
    assert(views(pkgs@).subrange(0, pkgs.len() as int) =~= views(pkgs@));
    Ok(Some(Command { program, args }))
}

/// The commands that enable a foreign architecture: on apt families, adding the
/// architecture and refreshing the package lists; elsewhere none.
pub fn cross_setup_commands(d: &Distro, arch: &String) -> (r: Vec<Command>)
    ensures
        apt_family(d.name@) ==> r@.len() == 2 && r@[0].program@ == "dpkg"@ && views(r@[0].args@)
            == seq!["--add-architecture"@, arch@] && r@[1].program@ == "apt-get"@ && views(
            r@[1].args@,
        ) == seq!["update"@],
        !apt_family(d.name@) ==> r@.len() == 0,
{
    let mut r: Vec<Command> = Vec::new();
    if is_apt_family(&d.name) {
        let mut a1: Vec<String> = Vec::new();
        a1.push(String::from_str("--add-architecture"));
        a1.push(arch.clone());
        let mut a2: Vec<String> = Vec::new();
        a2.push(String::from_str("update"));
        assert(views(a1@) =~= seq!["--add-architecture"@, arch@]);
        assert(views(a2@) =~= seq!["update"@]);
        r.push(Command { program: String::from_str("dpkg"), args: a1 });
        r.push(Command { program: String::from_str("apt-get"), args: a2 });
    }
    r
}

} // verus!
