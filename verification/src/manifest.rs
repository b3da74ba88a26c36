//! The package manifest: the full package description fetched through a
//! pointer document, and its verified extraction from a parsed YAML tree.

use crate::yaml::{
    field_of, parse_yaml_text, str_field_of, yaml_field, yaml_of, yaml_str_field, Yaml,
};
use crate::PkgError;
use vstd::prelude::*;

verus! {

/// A package description: identity, source locations, the install
/// command, and the names this package depends on, in declaration order.
#[derive(Debug)]
pub struct Manifest {
    pub name: String,
    pub version: String,
    pub maintainer: String,
    pub description: String,
    /// Location of the package's raw source, when one is declared.
    pub raw_url: Option<String>,
    /// Location of the binary archive to download, when one is declared.
    pub archive_url: Option<String>,
    /// The shell command that performs the install.
    pub install_command: String,
    pub dependencies: Vec<String>,
}

/// The mathematical value of a [`Manifest`].
pub struct ManifestV {
    pub name: Seq<char>,
    pub version: Seq<char>,
    pub maintainer: Seq<char>,
    pub description: Seq<char>,
    pub raw_url: Option<Seq<char>>,
    pub archive_url: Option<Seq<char>>,
    pub install_command: Seq<char>,
    pub dependencies: Seq<Seq<char>>,
}

impl View for Manifest {
    type V = ManifestV;

    open spec fn view(&self) -> ManifestV {
        ManifestV {
            name: self.name@,
            version: self.version@,
            maintainer: self.maintainer@,
            description: self.description@,
            raw_url: self.raw_url.deep_view(),
            archive_url: self.archive_url.deep_view(),
            install_command: self.install_command@,
            dependencies: self.dependencies.deep_view(),
        }
    }
}

/// An optional string field: `Some(None)` when absent or null,
/// `Some(Some(s))` when a string, `None` when present with another shape.
pub open spec fn opt_str_field_of(y: Yaml, key: Seq<char>) -> Option<Option<Seq<char>>> {
    match field_of(y, key) {
        Option::None => Some(Option::<Seq<char>>::None),
        Some(Yaml::Null) => Some(Option::<Seq<char>>::None),
        Some(Yaml::Str(s)) => Some(Some(s@)),
        Some(_) => None,
    }
}

/// The elements of a YAML list when every one is a string.
pub open spec fn all_strings(xs: Seq<Yaml>) -> Option<Seq<Seq<char>>>
    decreases xs.len(),
{
    if xs.len() == 0 {
        Some(Seq::<Seq<char>>::empty())
    } else {
        match xs[0] {
            Yaml::Str(s) => match all_strings(xs.drop_first()) {
                Some(rest) => Some(seq![s@] + rest),
                Option::None => None,
            },
            _ => None,
        }
    }
}

/// The dependency list of a manifest document: absent or null means
/// none; anything but a list of strings is malformed.
pub open spec fn deps_field_of(y: Yaml) -> Option<Seq<Seq<char>>> {
    match field_of(y, "dependencies"@) {
        Option::None => Some(Seq::<Seq<char>>::empty()),
        Some(Yaml::Null) => Some(Seq::<Seq<char>>::empty()),
        Some(Yaml::List(xs)) => all_strings(xs@),
        Some(_) => None,
    }
}

/// The manifest a YAML document describes: `name`, `version`,
/// `maintainer`, `description` and `install.commands` are required
/// strings, `source` a required mapping with optional string fields
/// `raw` and `package`, `dependencies` an optional list of strings.
pub open spec fn manifest_of_yaml(y: Yaml) -> Option<ManifestV> {
    match (
        str_field_of(y, "name"@),
        str_field_of(y, "version"@),
        str_field_of(y, "maintainer"@),
        str_field_of(y, "description"@),
    ) {
        (Some(name), Some(version), Some(maintainer), Some(description)) => match field_of(
            y,
            "source"@,
        ) {
            Some(src) => if src is Mapping {
                match (opt_str_field_of(src, "raw"@), opt_str_field_of(src, "package"@)) {
                    (Some(raw_url), Some(archive_url)) => match field_of(y, "install"@) {
                        Some(inst) => match str_field_of(inst, "commands"@) {
                            Some(install_command) => match deps_field_of(y) {
                                Some(dependencies) => Some(
                                    ManifestV {
                                        name,
                                        version,
                                        maintainer,
                                        description,
                                        raw_url,
                                        archive_url,
                                        install_command,
                                        dependencies,
                                    },
                                ),
                                Option::None => None,
                            },
                            Option::None => None,
                        },
                        Option::None => None,
                    },
                    _ => None,
                }
            } else {
                None
            },
            Option::None => None,
        },
        _ => None,
    }
}

/// The manifest a text describes, when the text is valid YAML in the
/// shape [`manifest_of_yaml`] asks for.
pub open spec fn manifest_of_text(s: Seq<char>) -> Option<ManifestV> {
    match yaml_of(s) {
        Some(y) => manifest_of_yaml(y),
        Option::None => None,
    }
}

/// Parses a pointer document — the indirection fetched by package name
/// — and extracts the URL of the full manifest. Succeeds exactly when
/// the text binds a string to `url`; anything else is malformed.
pub fn parse_pointer(text: &str) -> (r: Result<String, PkgError>)
    ensures
        match r {
            Ok(u) => crate::yaml::url_of_doc(text@) == Some(u@),
            Err(e) => crate::yaml::url_of_doc(text@) is None && e matches PkgError::MalformedDocument(
                _,
            ),
        },
{
    match crate::yaml::parse_url_doc(text) {
        Some(u) => Ok(u),
        Option::None => Err(PkgError::MalformedDocument(text.to_owned())),
    }
}

/// Reads an optional string field, as [`opt_str_field_of`] describes.
fn yaml_opt_str_field(y: &Yaml, key: &str) -> (r: Result<Option<String>, PkgError>)
    ensures
        match r {
            Ok(u) => opt_str_field_of(*y, key@) == Some(u.deep_view()),
            Err(e) => opt_str_field_of(*y, key@) is None && e matches PkgError::MalformedDocument(
                _,
            ),
        },
{
    match yaml_field(y, key) {
        Option::None => Ok(None),
        Some(v) => match v {
            Yaml::Null => Ok(None),
            Yaml::Str(s) => Ok(Some(s.clone())),
            _ => Err(PkgError::MalformedDocument(key.to_owned())),
        },
    }
}

/// Parses a manifest document.
///
/// Succeeds exactly on texts that [`manifest_of_text`] accepts, and then
/// returns exactly the manifest it describes; any parse failure or
/// missing required field is a malformed-document error.
pub fn parse_manifest(text: &str) -> (r: Result<Manifest, PkgError>)
    ensures
        match r {
            Ok(m) => manifest_of_text(text@) == Some(m@),
            Err(e) => manifest_of_text(text@) is None && e matches PkgError::MalformedDocument(_),
        },
{
    let y = match parse_yaml_text(text) {
        Some(y) => y,
        Option::None => {
            return Err(PkgError::MalformedDocument(text.to_owned()));
        },
    };
    let name = match yaml_str_field(&y, "name") {
        Some(s) => s,
        Option::None => {
            return Err(PkgError::MalformedDocument("name".to_owned()));
        },
    };
    let version = match yaml_str_field(&y, "version") {
        Some(s) => s,
        Option::None => {
            return Err(PkgError::MalformedDocument("version".to_owned()));
        },
    };
    let maintainer = match yaml_str_field(&y, "maintainer") {
        Some(s) => s,
        Option::None => {
            return Err(PkgError::MalformedDocument("maintainer".to_owned()));
        },
    };
    let description = match yaml_str_field(&y, "description") {
        Some(s) => s,
        Option::None => {
            return Err(PkgError::MalformedDocument("description".to_owned()));
        },
    };
    let source = match yaml_field(&y, "source") {
        Some(v) => v,
        Option::None => {
            return Err(PkgError::MalformedDocument("source".to_owned()));
        },
    };
    match source {
        Yaml::Mapping(_) => {},
        _ => {
            return Err(PkgError::MalformedDocument("source".to_owned()));
        },
    }
    let raw_url = match yaml_opt_str_field(source, "raw") {
        Ok(u) => u,
        Err(e) => {
            return Err(e);
        },
    };
    let archive_url = match yaml_opt_str_field(source, "package") {
        Ok(u) => u,
        Err(e) => {
            return Err(e);
        },
    };
    let install = match yaml_field(&y, "install") {
        Some(v) => v,
        Option::None => {
            return Err(PkgError::MalformedDocument("install".to_owned()));
        },
    };
    let install_command = match yaml_str_field(install, "commands") {
        Some(s) => s,
        Option::None => {
            return Err(PkgError::MalformedDocument("install".to_owned()));
        },
    };
    let dependencies = match parse_deps(&y) {
        Ok(d) => d,
        Err(e) => {
            return Err(e);
        },
    };
    Ok(
        Manifest {
            name,
            version,
            maintainer,
            description,
            raw_url,
            archive_url,
            install_command,
            dependencies,
        },
    )
}

/// Reads the dependency list, as [`deps_field_of`] describes.
fn parse_deps(y: &Yaml) -> (r: Result<Vec<String>, PkgError>)
    ensures
        match r {
            Ok(d) => deps_field_of(*y) == Some(d.deep_view()),
            Err(e) => deps_field_of(*y) is None && e matches PkgError::MalformedDocument(_),
        },
{
    let field = match yaml_field(y, "dependencies") {
        Option::None => {
            let empty: Vec<String> = Vec::new();
            proof {
                assert(empty.deep_view() =~= Seq::<Seq<char>>::empty());
            }
            return Ok(empty);
        },
        Some(v) => v,
    };
    match field {
        Yaml::Null => {
            let empty: Vec<String> = Vec::new();
            proof {
                assert(empty.deep_view() =~= Seq::<Seq<char>>::empty());
            }
            Ok(empty)
        },
        Yaml::List(xs) => {
            let mut out: Vec<String> = Vec::new();
            let mut i: usize = 0;
            proof {
                assert(xs@.skip(0) =~= xs@);
                assert(out.deep_view() =~= Seq::<Seq<char>>::empty());
            }
            while i < xs.len()
                invariant
                    i <= xs@.len(),
                    deps_field_of(*y) == all_strings(xs@),
                    all_strings(xs@) == match all_strings(xs@.skip(i as int)) {
                        Some(rest) => Some(out.deep_view() + rest),
                        Option::None => Option::<Seq<Seq<char>>>::None,
                    },
                decreases xs@.len() - i,
            {
                proof {
                    assert(xs@.skip(i as int)[0] == xs@[i as int]);
                }
                match &xs[i] {
                    Yaml::Str(s) => {
                        let ghost prev = out.deep_view();
                        out.push(s.clone());
                        proof {
                            assert(xs@.skip(i as int).drop_first() =~= xs@.skip(i + 1));
                            assert(out.deep_view() =~= prev.push(s@));
                            if all_strings(xs@.skip(i + 1)) is Some {
                                let rest2 = all_strings(xs@.skip(i + 1)).unwrap();
                                assert(prev + (seq![s@] + rest2) =~= out.deep_view() + rest2);
                            }
                        }
                    },
                    _ => {
                        proof {
                            assert(all_strings(xs@.skip(i as int)) is None);
                        }
                        return Err(PkgError::MalformedDocument("dependencies".to_owned()));
                    },
                }
                i += 1;
            }
            proof {
                assert(xs@.skip(xs@.len() as int).len() == 0);
                assert(out.deep_view() + Seq::<Seq<char>>::empty() =~= out.deep_view());
            }
            Ok(out)
        },
        _ => Err(PkgError::MalformedDocument("dependencies".to_owned())),
    }
}

} // verus!
