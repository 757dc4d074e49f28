//! Entities: things that live at a real-valued position inside a region.

use crate::error::NbtError;
use crate::string_map::StringMap;
use crate::utils::nbt::{
    compound_at,
    lemma_list_view,
    list_at,
    list_view,
    string_at,
    strings_nbt,
    strings_of,
    NbtMap,
    NbtValue,
    NbtView,
};
use vstd::prelude::*;

verus! {

/// The mathematical value of an entity.
pub struct EntityView {
    pub id: Seq<char>,
    pub position: (u64, u64, u64),
    pub nbt: Map<Seq<char>, Seq<char>>,
}

/// The structured value of an entity: its identifier under `id`, its
/// position under `Pos` as a list of three doubles, and its data under
/// `NBT`.
pub open spec fn entity_nbt(e: EntityView) -> NbtView {
    NbtView::Compound(
        Map::<Seq<char>, NbtView>::empty().insert("id"@, NbtView::String(e.id)).insert(
            "Pos"@,
            NbtView::List(
                seq![
                    NbtView::Double(e.position.0),
                    NbtView::Double(e.position.1),
                    NbtView::Double(e.position.2),
                ],
            ),
        ).insert("NBT"@, NbtView::Compound(strings_nbt(e.nbt))),
    )
}

/// The entity that a compound describes, or the first tag that is
/// missing or wrong: the string under `id`, the list of three doubles
/// under `Pos`, and the strings of the compound under `NBT`.
pub open spec fn entity_of_nbt(m: Map<Seq<char>, NbtView>) -> Result<EntityView, NbtError> {
    if string_at(m, "id"@).is_none() {
        Err(NbtError::EntityId)
    } else if list_at(m, "Pos"@).is_none() {
        Err(NbtError::EntityPosition)
    } else {
        let position = list_at(m, "Pos"@).unwrap();
        if position.len() != 3 {
            Err(NbtError::PositionData)
        } else if !(position[0] is Double) {
            Err(NbtError::PositionX)
        } else if !(position[1] is Double) {
            Err(NbtError::PositionY)
        } else if !(position[2] is Double) {
            Err(NbtError::PositionZ)
        } else if compound_at(m, "NBT"@).is_none() {
            Err(NbtError::EntityData)
        } else {
            Ok(
                EntityView {
                    id: string_at(m, "id"@).unwrap(),
                    position: (
                        position[0]->Double_0,
                        position[1]->Double_0,
                        position[2]->Double_0,
                    ),
                    nbt: strings_of(compound_at(m, "NBT"@).unwrap()),
                },
            )
        }
    }
}

/// An entity. Each coordinate of `position` is held as the bit pattern of
/// an IEEE 754 double, as `f64::to_bits` gives it, so that it goes through
/// the library unchanged.
#[derive(Debug)]
pub struct Entity {
    pub id: String,
    pub position: (u64, u64, u64),
    pub nbt: StringMap,
}

impl View for Entity {
    type V = EntityView;

    open spec fn view(&self) -> EntityView {
        EntityView { id: self.id@, position: self.position, nbt: self.nbt@ }
    }
}

impl Entity {
    /// An entity with the given identifier and position and no data.
    pub fn new(id: String, position: (u64, u64, u64)) -> (r: Self)
        ensures
            r.id == id,
            r.position == position,
            r@ == (EntityView { id: id@, position, nbt: Map::empty() }),
    {
        Entity { id, position, nbt: StringMap::new() }
    }

    /// The same entity with `key` bound to `value` in its data.
    pub fn with_nbt_data(self, key: String, value: String) -> (r: Self)
        ensures
            r.id == self.id,
            r.position == self.position,
            r@.nbt == self@.nbt.insert(key@, value@),
    {
        let mut entity = self;
        entity.nbt.insert(key, value);
        entity
    }
}

impl Entity {
    /// The structured value of the entity.
    pub fn to_nbt(&self) -> (r: NbtValue)
        ensures
            r@ == entity_nbt(self@),
    {
        let mut compound = NbtMap::new();
        compound.put("id", NbtValue::String(self.id.clone()));
        let mut position: Vec<NbtValue> = Vec::new();
        position.push(NbtValue::Double(self.position.0));
        position.push(NbtValue::Double(self.position.1));
        position.push(NbtValue::Double(self.position.2));
        proof {
            lemma_list_view(position@);
            assert(crate::utils::nbt::list_view(position@) =~= seq![
                NbtView::Double(self.position.0),
                NbtView::Double(self.position.1),
                NbtView::Double(self.position.2),
            ]);
        }
        compound.put("Pos", NbtValue::List(position));
        compound.put("NBT", NbtValue::Compound(NbtMap::from_string_map(&self.nbt)));
        NbtValue::Compound(compound)
    }

    /// The entity that `nbt` describes.
    pub fn from_nbt(nbt: &NbtMap) -> (r: Result<Self, NbtError>)
        ensures
            match r {
                Ok(entity) => entity_of_nbt(nbt@) == Ok::<EntityView, NbtError>(entity@),
                Err(e) => entity_of_nbt(nbt@) == Err::<EntityView, NbtError>(e),
            },
    {
        let id = match nbt.get_string("id") {
            Some(id) => id.clone(),
            None => {
                return Err(NbtError::EntityId);
            },
        };
        let position = match nbt.get_list("Pos") {
            Some(position) => position,
            None => {
                return Err(NbtError::EntityPosition);
            },
        };
        proof {
            lemma_list_view(position@);
        }
        if position.len() != 3 {
            return Err(NbtError::PositionData);
        }
        let x = match position[0].as_double_bits() {
            Some(x) => x,
            None => {
                return Err(NbtError::PositionX);
            },
        };
        let y = match position[1].as_double_bits() {
            Some(y) => y,
            None => {
                return Err(NbtError::PositionY);
            },
        };
        let z = match position[2].as_double_bits() {
            Some(z) => z,
            None => {
                return Err(NbtError::PositionZ);
            },
        };
        let data = match nbt.get_compound("NBT") {
            Some(data) => data.string_entries(),
            None => {
                return Err(NbtError::EntityData);
            },
        };
        Ok(Entity { id, position: (x, y, z), nbt: data })
    }
}

impl Clone for Entity {
    fn clone(&self) -> (r: Self)
        ensures
            r@ == self@,
            r.nbt.entries() == self.nbt.entries(),
    {
        Entity { id: self.id.clone(), position: self.position, nbt: self.nbt.clone() }
    }
}

impl PartialEq for Entity {
    /// Two entities are equal when they have the same identifier, the same
    /// position bit for bit, and the same data.
    fn eq(&self, other: &Self) -> (r: bool) {
        self.id == other.id && self.position.0 == other.position.0 && self.position.1
            == other.position.1 && self.position.2 == other.position.2 && self.nbt == other.nbt
    }
}

impl vstd::std_specs::cmp::PartialEqSpecImpl for Entity {
    open spec fn obeys_eq_spec() -> bool {
        true
    }

    open spec fn eq_spec(&self, other: &Self) -> bool {
        self@ == other@
    }
}

/// The values of a sequence of entities.
pub open spec fn entity_views(entities: Seq<Entity>) -> Seq<EntityView> {
    entities.map_values(|e: Entity| e@)
}

/// The entity that a tag describes, if it describes one.
pub open spec fn entity_of_tag(tag: NbtView) -> Option<EntityView> {
    if tag is Compound && entity_of_nbt(tag->Compound_0) is Ok {
        Some(entity_of_nbt(tag->Compound_0)->Ok_0)
    } else {
        None
    }
}

/// The entities that the tags of `list` describe; tags that describe none
/// are left out.
pub fn read_entities(list: &Vec<NbtValue>) -> (r: Vec<Entity>)
    ensures
        entity_views(r@) == list_view(list@).filter_map(|tag: NbtView| entity_of_tag(tag)),
{
    let mut entities: Vec<Entity> = Vec::new();
    let mut i: usize = 0;
    let ghost tags = list_view(list@);
    let ghost pick = |tag: NbtView| entity_of_tag(tag);
    proof {
        lemma_list_view(list@);
        assert(tags.take(0) =~= Seq::<NbtView>::empty());
        assert(entity_views(entities@) =~= tags.take(0).filter_map(pick));
    }
    while i < list.len()
        invariant
            i <= list.len(),
            tags == list_view(list@),
            tags.len() == list.len(),
            pick == |tag: NbtView| entity_of_tag(tag),
            forall|j: int| 0 <= j < list.len() ==> (#[trigger] tags[j]) == list[j]@,
            entity_views(entities@) == tags.take(i as int).filter_map(pick),
        decreases list.len() - i,
    {
        proof {
            assert(tags.take(i as int + 1).drop_last() =~= tags.take(i as int));
            assert(tags.take(i as int + 1).last() == tags[i as int]);
        }
        if let Some(compound) = list[i].as_compound() {
            if let Ok(entity) = Entity::from_nbt(compound) {
                proof {
                    assert(entity_views(entities@.push(entity)) =~= entity_views(entities@).push(
                        entity@,
                    ));
                    assert(entity_views(entities@).push(entity@) =~= entity_views(entities@)
                        + seq![entity@]);
                }
                entities.push(entity);
            }
        }
        i += 1;
    }
    proof {
        assert(tags.take(list.len() as int) =~= tags);
    }
    entities
}

} // verus!
