//! Package metadata, installed-package records and repositories.
use vstd::prelude::*;

verus! {

/// The metadata shipped inside a package archive.
#[derive(Debug, Clone)]
pub struct PackageMetadata {
    pub package: PackageInfo,
    pub dependencies: Dependencies,
    pub services: ServiceInfo,
    pub files: FileInfo,
}

#[derive(Debug, Clone)]
pub struct PackageInfo {
    pub name: String,
    pub version: String,
    pub architecture: String,
    pub description: String,
    pub homepage: Option<String>,
    pub license: String,
    pub maintainer: Maintainer,
}

#[derive(Debug, Clone)]
pub struct Maintainer {
    pub name: String,
    pub email: String,
}

/// Packages this one needs, by purpose.
#[derive(Debug, Clone)]
pub struct Dependencies {
    pub runtime: Vec<String>,
    pub build: Vec<String>,
    pub optional: Vec<String>,
}

impl Default for Dependencies {
    fn default() -> (r: Self)
        ensures
            r.runtime@.len() == 0,
            r.build@.len() == 0,
            r.optional@.len() == 0,
    {
        Dependencies { runtime: Vec::new(), build: Vec::new(), optional: Vec::new() }
    }
}

/// Service units that a package installs.
#[derive(Debug, Clone)]
pub struct ServiceInfo {
    pub units: Vec<String>,
}

impl Default for ServiceInfo {
    fn default() -> (r: Self)
        ensures
            r.units@.len() == 0,
    {
        ServiceInfo { units: Vec::new() }
    }
}

/// Where a package's files go.
#[derive(Debug, Clone)]
pub struct FileInfo {
    pub install_to: String,
    pub preserve_config: bool,
}

impl Default for FileInfo {
    fn default() -> (r: Self)
        ensures
            r.install_to@.len() == 0,
            !r.preserve_config,
    {
        FileInfo { install_to: String::new(), preserve_config: false }
    }
}

/// The record of one installed package.
#[derive(Debug, Clone)]
pub struct PackageEntry {
    pub name: String,
    pub version: String,
    pub architecture: String,
    pub installed: bool,
    pub files: Vec<String>,
    pub dependencies: Vec<String>,
}

/// A package repository.
#[derive(Debug, Clone)]
pub struct Repository {
    pub name: String,
    pub url: String,
}

impl Repository {
    pub fn new(name: String, url: String) -> (r: Self)
        ensures
            r.name == name,
            r.url == url,
    {
        Repository { name, url }
    }
}

} // verus!
