//! What a schematic says about itself.

use crate::error::NbtError;
use crate::utils::nbt::{int_at, long_at, string_at, NbtMap, NbtValue, NbtView};
use vstd::prelude::*;

verus! {

/// The descriptive fields of a schematic; every one of them is optional.
#[derive(Debug)]
pub struct Metadata {
    pub name: Option<String>,
    pub author: Option<String>,
    pub description: Option<String>,
    pub created: Option<u64>,
    pub modified: Option<u64>,
    pub lm_version: Option<i32>,
    pub mc_version: Option<i32>,
    pub we_version: Option<i32>,
}

/// The mathematical value of the descriptive fields.
pub struct MetadataView {
    pub name: Option<Seq<char>>,
    pub author: Option<Seq<char>>,
    pub description: Option<Seq<char>>,
    pub created: Option<u64>,
    pub modified: Option<u64>,
    pub lm_version: Option<i32>,
    pub mc_version: Option<i32>,
    pub we_version: Option<i32>,
}

/// The characters of an optional string.
pub open spec fn text_view(text: Option<String>) -> Option<Seq<char>> {
    match text {
        Some(s) => Some(s@),
        None => None,
    }
}

/// A copy of an optional string.
pub fn clone_text(text: &Option<String>) -> (r: Option<String>)
    ensures
        r == *text,
{
    match text {
        Some(s) => Some(s.clone()),
        None => None,
    }
}

/// Whether two optional strings hold the same characters, or both
/// nothing.
pub fn same_text(a: &Option<String>, b: &Option<String>) -> (r: bool)
    ensures
        r == (text_view(*a) == text_view(*b)),
{
    match (a, b) {
        (Some(x), Some(y)) => *x == *y,
        (None, None) => true,
        _ => false,
    }
}

/// Whether two optional numbers are the same.
pub fn same_u64(a: Option<u64>, b: Option<u64>) -> (r: bool)
    ensures
        r == (a == b),
{
    match (a, b) {
        (Some(x), Some(y)) => x == y,
        (None, None) => true,
        _ => false,
    }
}

/// Whether two optional numbers are the same.
pub fn same_i32(a: Option<i32>, b: Option<i32>) -> (r: bool)
    ensures
        r == (a == b),
{
    match (a, b) {
        (Some(x), Some(y)) => x == y,
        (None, None) => true,
        _ => false,
    }
}

impl View for Metadata {
    type V = MetadataView;

    open spec fn view(&self) -> MetadataView {
        MetadataView {
            name: text_view(self.name),
            author: text_view(self.author),
            description: text_view(self.description),
            created: self.created,
            modified: self.modified,
            lm_version: self.lm_version,
            mc_version: self.mc_version,
            we_version: self.we_version,
        }
    }
}

impl Metadata {
    /// The metadata with the given fields.
    pub fn new(
        name: Option<String>,
        author: Option<String>,
        description: Option<String>,
        created: Option<u64>,
        modified: Option<u64>,
        lm_version: Option<i32>,
        mc_version: Option<i32>,
        we_version: Option<i32>,
    ) -> (r: Self)
        ensures
            r.name == name,
            r.author == author,
            r.description == description,
            r.created == created,
            r.modified == modified,
            r.lm_version == lm_version,
            r.mc_version == mc_version,
            r.we_version == we_version,
    {
        Metadata {
            name,
            author,
            description,
            created,
            modified,
            lm_version,
            mc_version,
            we_version,
        }
    }
}

/// `m` with `key` bound to the string `text`, when there is one.
pub open spec fn with_text(m: Map<Seq<char>, NbtView>, key: Seq<char>, text: Option<Seq<char>>) -> Map<
    Seq<char>,
    NbtView,
> {
    match text {
        Some(t) => m.insert(key, NbtView::String(t)),
        None => m,
    }
}

/// `m` with `key` bound to the long `number`, taken as a signed number,
/// when there is one.
pub open spec fn with_long(m: Map<Seq<char>, NbtView>, key: Seq<char>, number: Option<u64>) -> Map<
    Seq<char>,
    NbtView,
> {
    match number {
        Some(n) => m.insert(key, NbtView::Long(n as i64)),
        None => m,
    }
}

/// `m` with `key` bound to the int `number`, when there is one.
pub open spec fn with_int(m: Map<Seq<char>, NbtView>, key: Seq<char>, number: Option<i32>) -> Map<
    Seq<char>,
    NbtView,
> {
    match number {
        Some(n) => m.insert(key, NbtView::Int(n)),
        None => m,
    }
}

/// The structured value of the metadata: every field that is there,
/// under its name.
pub open spec fn metadata_nbt(d: MetadataView) -> NbtView {
    NbtView::Compound(
        with_int(
            with_int(
                with_int(
                    with_long(
                        with_long(
                            with_text(
                                with_text(
                                    with_text(Map::empty(), "Name"@, d.name),
                                    "Author"@,
                                    d.author,
                                ),
                                "Description"@,
                                d.description,
                            ),
                            "TimeCreated"@,
                            d.created,
                        ),
                        "TimeModified"@,
                        d.modified,
                    ),
                    "lm_version"@,
                    d.lm_version,
                ),
                "mc_version"@,
                d.mc_version,
            ),
            "we_version"@,
            d.we_version,
        ),
    )
}

/// The long `number` taken as an unsigned number.
pub open spec fn unsigned(number: Option<i64>) -> Option<u64> {
    match number {
        Some(n) => Some(n as u64),
        None => None,
    }
}

/// The metadata that a compound describes: every field whose name is
/// bound to a tag of the right type.
pub open spec fn metadata_of_nbt(m: Map<Seq<char>, NbtView>) -> MetadataView {
    MetadataView {
        name: string_at(m, "Name"@),
        author: string_at(m, "Author"@),
        description: string_at(m, "Description"@),
        created: unsigned(long_at(m, "TimeCreated"@)),
        modified: unsigned(long_at(m, "TimeModified"@)),
        lm_version: int_at(m, "lm_version"@),
        mc_version: int_at(m, "mc_version"@),
        we_version: int_at(m, "we_version"@),
    }
}

/// A copy of the string bound to `key`, when a string is.
pub fn text_of(m: &NbtMap, key: &str) -> (r: Option<String>)
    ensures
        text_view(r) == string_at(m@, key@),
{
    match m.get_string(key) {
        Some(s) => Some(s.clone()),
        None => None,
    }
}

/// The long bound to `key`, taken as an unsigned number, when a long is.
pub fn time_of(m: &NbtMap, key: &str) -> (r: Option<u64>)
    ensures
        r == unsigned(long_at(m@, key@)),
{
    match m.get_long(key) {
        Some(n) => Some(#[verifier::truncate] (n as u64)),
        None => None,
    }
}

impl Metadata {
    /// The structured value of the metadata.
    pub fn to_nbt(&self) -> (r: NbtValue)
        ensures
            r@ == metadata_nbt(self@),
    {
        let mut compound = NbtMap::new();
        if let Some(name) = &self.name {
            compound.put("Name", NbtValue::String(name.clone()));
        }
        if let Some(author) = &self.author {
            compound.put("Author", NbtValue::String(author.clone()));
        }
        if let Some(description) = &self.description {
            compound.put("Description", NbtValue::String(description.clone()));
        }
        if let Some(created) = self.created {
            compound.put("TimeCreated", NbtValue::Long(#[verifier::truncate] (created as i64)));
        }
        if let Some(modified) = self.modified {
            compound.put("TimeModified", NbtValue::Long(#[verifier::truncate] (modified as i64)));
        }
        if let Some(lm_version) = self.lm_version {
            compound.put("lm_version", NbtValue::Int(lm_version));
        }
        if let Some(mc_version) = self.mc_version {
            compound.put("mc_version", NbtValue::Int(mc_version));
        }
        if let Some(we_version) = self.we_version {
            compound.put("we_version", NbtValue::Int(we_version));
        }
        NbtValue::Compound(compound)
    }

    /// The metadata that `nbt` describes. A field that is missing or has
    /// the wrong type is taken as absent, so this never fails.
    pub fn from_nbt(nbt: &NbtMap) -> (r: Result<Self, NbtError>)
        ensures
            r.is_ok(),
            r.unwrap()@ == metadata_of_nbt(nbt@),
    {
        Ok(
            Metadata::new(
                text_of(nbt, "Name"),
                text_of(nbt, "Author"),
                text_of(nbt, "Description"),
                time_of(nbt, "TimeCreated"),
                time_of(nbt, "TimeModified"),
                nbt.get_int("lm_version"),
                nbt.get_int("mc_version"),
                nbt.get_int("we_version"),
            ),
        )
    }
}

impl Default for Metadata {
    fn default() -> (r: Self)
        ensures
            r.name.is_none(),
            r.author.is_none(),
            r.description.is_none(),
            r.created.is_none(),
            r.modified.is_none(),
            r.lm_version.is_none(),
            r.mc_version.is_none(),
            r.we_version.is_none(),
    {
        Metadata {
            name: None,
            author: None,
            description: None,
            created: None,
            modified: None,
            lm_version: None,
            mc_version: None,
            we_version: None,
        }
    }
}

impl Clone for Metadata {
    fn clone(&self) -> (r: Self)
        ensures
            r == *self,
    {
        Metadata {
            name: clone_text(&self.name),
            author: clone_text(&self.author),
            description: clone_text(&self.description),
            created: self.created,
            modified: self.modified,
            lm_version: self.lm_version,
            mc_version: self.mc_version,
            we_version: self.we_version,
        }
    }
}

impl PartialEq for Metadata {
    fn eq(&self, other: &Self) -> (r: bool) {
        same_text(&self.name, &other.name) && same_text(&self.author, &other.author) && same_text(
            &self.description,
            &other.description,
        ) && same_u64(self.created, other.created) && same_u64(self.modified, other.modified)
            && same_i32(self.lm_version, other.lm_version) && same_i32(
            self.mc_version,
            other.mc_version,
        ) && same_i32(self.we_version, other.we_version)
    }
}

impl vstd::std_specs::cmp::PartialEqSpecImpl for Metadata {
    open spec fn obeys_eq_spec() -> bool {
        true
    }

    open spec fn eq_spec(&self, other: &Self) -> bool {
        self@ == other@
    }
}

} // verus!
