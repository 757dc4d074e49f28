//! Block states: a block type name with string-valued properties.

use crate::error::NbtError;
use crate::string_map::{Entry, StringMap};
use crate::utils::nbt::{compound_at, string_at, strings_nbt, strings_of, NbtMap, NbtValue, NbtView};
use vstd::prelude::*;

verus! {

/// The mathematical value of a block state.
pub struct BlockStateView {
    pub name: Seq<char>,
    pub properties: Map<Seq<char>, Seq<char>>,
}

/// The name of the block that stands for empty space.
pub open spec fn air_name() -> Seq<char> {
    "minecraft:air"@
}

/// The value of the empty block: the air name and no property.
pub open spec fn air_view() -> BlockStateView {
    BlockStateView { name: air_name(), properties: Map::empty() }
}

/// The entries `k=v` of a property list, separated by commas.
pub open spec fn properties_text(entries: Seq<Entry>) -> Seq<char>
    decreases entries.len(),
{
    if entries.len() == 0 {
        Seq::empty()
    } else if entries.len() == 1 {
        entries[0].0 + seq!['='] + entries[0].1
    } else {
        properties_text(entries.drop_last()) + seq![','] + entries.last().0 + seq!['=']
            + entries.last().1
    }
}

/// The text form of a block state: the name, followed by the properties in
/// square brackets when there are any.
pub open spec fn block_state_text(name: Seq<char>, entries: Seq<Entry>) -> Seq<char> {
    if entries.len() == 0 {
        name
    } else {
        name + seq!['['] + properties_text(entries) + seq![']']
    }
}

/// The structured value of a block state: its name under `Name` and, when
/// it has any, its properties under `Properties`.
pub open spec fn block_state_nbt(block: BlockStateView) -> NbtView {
    let named = Map::<Seq<char>, NbtView>::empty().insert("Name"@, NbtView::String(block.name));
    NbtView::Compound(
        if block.properties == Map::<Seq<char>, Seq<char>>::empty() {
            named
        } else {
            named.insert("Properties"@, NbtView::Compound(strings_nbt(block.properties)))
        },
    )
}

/// The block state that a compound describes: the string under `Name`,
/// which must be there, and the strings among what the compound under
/// `Properties` binds, if there is one.
pub open spec fn block_state_of_nbt(compound: Map<Seq<char>, NbtView>) -> Result<
    BlockStateView,
    NbtError,
> {
    match string_at(compound, "Name"@) {
        None => Err(NbtError::Name),
        Some(name) => Ok(
            BlockStateView {
                name,
                properties: match compound_at(compound, "Properties"@) {
                    Some(properties) => strings_of(properties),
                    None => Map::empty(),
                },
            },
        ),
    }
}

/// Reading the structured value of a block state gives the block state
/// back.
pub proof fn lemma_block_state_nbt_round_trip(block: BlockStateView)
    ensures
        block_state_nbt(block) is Compound,
        block_state_of_nbt(block_state_nbt(block)->Compound_0) == Ok::<BlockStateView, NbtError>(
            block,
        ),
{
    reveal_strlit("Name");
    reveal_strlit("Properties");
    assert("Name"@ != "Properties"@) by {
        assert("Name"@.len() == 4);
        assert("Properties"@.len() == 10);
    }
    assert(strings_of(strings_nbt(block.properties)) =~= block.properties);
}

/// A block type name together with its properties.
#[derive(Debug)]
pub struct BlockState {
    pub name: String,
    pub properties: StringMap,
}

impl View for BlockState {
    type V = BlockStateView;

    open spec fn view(&self) -> BlockStateView {
        BlockStateView { name: self.name@, properties: self.properties@ }
    }
}

impl BlockState {
    /// A block state with the given name and no property.
    pub fn new(name: String) -> (r: Self)
        ensures
            r.name == name,
            r.properties.entries() == Seq::<Entry>::empty(),
            r@ == (BlockStateView { name: name@, properties: Map::empty() }),
    {
        BlockState { name, properties: StringMap::new() }
    }

    /// The same block state with `key` bound to `value`.
    pub fn with_property(self, key: String, value: String) -> (r: Self)
        ensures
            r.name == self.name,
            r@.properties == self@.properties.insert(key@, value@),
    {
        let mut state = self;
        state.properties.insert(key, value);
        state
    }

    /// The same block state with its properties replaced by `properties`.
    pub fn with_properties(self, properties: StringMap) -> (r: Self)
        ensures
            r.name == self.name,
            r.properties == properties,
    {
        BlockState { name: self.name, properties }
    }

    /// Binds `key` to `value`.
    pub fn set_property(&mut self, key: String, value: String)
        ensures
            final(self).name == old(self).name,
            final(self)@.properties == old(self)@.properties.insert(key@, value@),
    {
        self.properties.insert(key, value);
    }

    /// Unbinds `key`.
    pub fn remove_property(&mut self, key: &str)
        ensures
            final(self).name == old(self).name,
            final(self)@.properties == old(self)@.properties.remove(key@),
    {
        self.properties.remove(key);
    }

    /// The value bound to `key`, if there is one.
    pub fn get_property(&self, key: &str) -> (r: Option<&String>)
        ensures
            match r {
                Some(v) => self@.properties.contains_key(key@) && v@ == self@.properties[key@],
                None => !self@.properties.contains_key(key@),
            },
    {
        self.properties.get(key)
    }

    /// The structured value of the block state.
    pub fn to_nbt(&self) -> (r: NbtValue)
        ensures
            r@ == block_state_nbt(self@),
    {
        let mut compound = NbtMap::new();
        compound.put("Name", NbtValue::String(self.name.clone()));
        if !self.properties.is_empty() {
            compound.put(
                "Properties",
                NbtValue::Compound(NbtMap::from_string_map(&self.properties)),
            );
        }
        NbtValue::Compound(compound)
    }

    /// The block state that `compound` describes.
    pub fn from_nbt(compound: &NbtMap) -> (r: Result<Self, NbtError>)
        ensures
            match r {
                Ok(block) => block_state_of_nbt(compound@) == Ok::<BlockStateView, NbtError>(
                    block@,
                ),
                Err(e) => block_state_of_nbt(compound@) == Err::<BlockStateView, NbtError>(e),
            },
    {
        let name = match compound.get_string("Name") {
            Some(name) => name.clone(),
            None => {
                return Err(NbtError::Name);
            },
        };
        let properties = match compound.get_compound("Properties") {
            Some(properties) => properties.string_entries(),
            None => StringMap::new(),
        };
        Ok(BlockState { name, properties })
    }

    /// Whether this is an empty block: one whose name is the air name.
    pub fn is_air(&self) -> (r: bool)
        ensures
            r == (self@.name == air_name()),
    {
        let air = "minecraft:air".to_string();
        self.name == air
    }

    /// The text form `name[k=v,...]`, with the properties in insertion
    /// order and no brackets when there is none.
    pub fn to_string(&self) -> (r: String)
        ensures
            r@ == block_state_text(self.name@, self.properties.entries()),
    {
        let mut text = self.name.clone();
        let n = self.properties.len();
        if n == 0 {
            return text;
        }
        text.append("[");
        let mut i: usize = 0;
        let ghost entries = self.properties.entries();
        proof {
            reveal_strlit("[");
            reveal_strlit(",");
            reveal_strlit("=");
            reveal_strlit("]");
            assert(entries.take(0) =~= Seq::<Entry>::empty());
        }
        while i < n
            invariant
                i <= n,
                n == entries.len(),
                entries == self.properties.entries(),
                "["@ == seq!['['],
                ","@ == seq![','],
                "="@ == seq!['='],
                text@ == self.name@ + seq!['['] + properties_text(entries.take(i as int)),
            decreases n - i,
        {
            if i > 0 {
                text.append(",");
            }
            text.append(self.properties.key_at(i).as_str());
            text.append("=");
            text.append(self.properties.value_at(i).as_str());
            proof {
                let t = entries.take(i as int + 1);
                assert(t.drop_last() =~= entries.take(i as int));
                assert(t.last() == entries[i as int]);
                if i == 0 {
                    assert(t.len() == 1);
                    assert(properties_text(t) == t[0].0 + seq!['='] + t[0].1);
                    assert(properties_text(entries.take(0)) =~= Seq::<char>::empty());
                    assert(text@ =~= self.name@ + seq!['['] + properties_text(t));
                } else {
                    assert(t.len() > 1);
                    assert(text@ =~= self.name@ + seq!['['] + properties_text(t));
                }
            }
            i += 1;
        }
        text.append("]");
        proof {
            assert(entries.take(n as int) =~= entries);
            assert(text@ =~= self.name@ + seq!['['] + properties_text(entries) + seq![']']);
        }
        text
    }
}

impl Clone for BlockState {
    fn clone(&self) -> (r: Self)
        ensures
            r.name == self.name,
            r.properties.entries() == self.properties.entries(),
            r@ == self@,
    {
        BlockState { name: self.name.clone(), properties: self.properties.clone() }
    }
}

impl PartialEq for BlockState {
    /// Two block states are equal when they have the same name and bind the
    /// same properties to the same values.
    fn eq(&self, other: &Self) -> (r: bool) {
        self.name == other.name && self.properties == other.properties
    }
}

impl vstd::std_specs::cmp::PartialEqSpecImpl for BlockState {
    open spec fn obeys_eq_spec() -> bool {
        true
    }

    open spec fn eq_spec(&self, other: &Self) -> bool {
        self@ == other@
    }
}

} // verus!
