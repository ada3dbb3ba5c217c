//! Reads the library's name out of a manifest, and the libraries that a C
//! header tells its readers to link.

fn lib_name(cargo_toml: &str) -> Option<String> {
    let mut in_lib = false;
    for line in cargo_toml.lines() {
        let t = line.trim();
        if t.starts_with('[') {
            in_lib = t == "[lib]";
            continue;
        }
        if !in_lib {
            continue;
        }
        if let Some(rest) = t.strip_prefix("name") {
            let rest = rest.trim_start().strip_prefix('=')?.trim();
            return Some(rest.trim_matches('"').to_owned());
        }
    }
    None
}

fn libraries_named(header: &str) -> Vec<String> {
    let mut out = Vec::new();
    for line in header.lines() {
        let mut rest = line;
        while let Some(i) = rest.find("lib") {
            let tail = &rest[i..];
            let name: String = tail
                .chars()
                .take_while(|c| c.is_ascii_alphanumeric() || *c == '_' || *c == '.')
                .collect();
            if name.ends_with(".a") && !out.contains(&name) {
                out.push(name);
            }
            rest = &rest[i + 3..];
        }
    }
    out
}

#[test]
fn the_lib_name_comes_from_the_lib_section_and_not_the_package() {
    let toml = "\
[package]
name = \"am-partitions\"
version = \"0.4.1\"

[lib]
name = \"partitions\"
crate-type = [\"staticlib\", \"rlib\"]
";
    assert_eq!(
        lib_name(toml).as_deref(),
        Some("partitions"),
        "the package name is not the library name, and using it would look for \
         libam-partitions.a"
    );
}

#[test]
fn the_header_scan_finds_library_names_in_prose() {
    let header = " * Link with libpartitions.a and include this header alongside fs_core.h.\n";
    assert_eq!(libraries_named(header), vec!["libpartitions.a"]);

    assert_eq!(
        libraries_named(" * Link with libam_partitions.a and include this\n"),
        vec!["libam_partitions.a"]
    );

    assert!(libraries_named(" * This library is liberally licensed.\n").is_empty());
}
