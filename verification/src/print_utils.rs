//! Plain text descriptions of schematics and their parts.

use crate::block_state::{block_state_text, BlockState};
use crate::metadata::{text_view, Metadata};
use crate::region::Region;
use crate::string_map::Entry;
use crate::text::{decimal, i64_to_string, signed_decimal, u64_to_string};
use crate::universal_schematic::UniversalSchematic;
use vstd::prelude::*;

verus! {

/// The lines of a palette: for each of the first `count` entries its
/// index and its name.
pub open spec fn palette_lines(palette: Seq<BlockState>, count: nat) -> Seq<char>
    decreases count,
{
    if count == 0 {
        Seq::empty()
    } else {
        palette_lines(palette, (count - 1) as nat) + "  "@ + decimal((count - 1) as nat) + ": "@
            + palette[count - 1].name@ + "\n"@
    }
}

/// A description of a palette: a heading and one line for each entry.
pub fn format_palette(palette: &Vec<BlockState>) -> (r: String)
    ensures
        r@ == "Palette:\n"@ + palette_lines(palette@, palette.len() as nat),
{
    let mut output = "Palette:\n".to_string();
    let mut i: usize = 0;
    proof {
        assert(output@ =~= "Palette:\n"@ + palette_lines(palette@, 0));
    }
    while i < palette.len()
        invariant
            i <= palette.len(),
            output@ == "Palette:\n"@ + palette_lines(palette@, i as nat),
        decreases palette.len() - i,
    {
        let ghost before = output@;
        output.append("  ");
        output.append(u64_to_string(i as u64).as_str());
        output.append(": ");
        output.append(palette[i].name.as_str());
        output.append("\n");
        proof {
            assert(output@ =~= "Palette:\n"@ + palette_lines(palette@, (i + 1) as nat));
        }
        i += 1;
    }
    output
}

/// `text` with a line that says `label` and `value`, when there is a
/// value.
pub open spec fn with_line(text: Seq<char>, label: Seq<char>, value: Option<Seq<char>>) -> Seq<char> {
    match value {
        Some(v) => text + label + v + "\n"@,
        None => text,
    }
}

/// The numeral of an optional number.
pub open spec fn numeral(value: Option<int>) -> Option<Seq<char>> {
    match value {
        Some(v) => Some(signed_decimal(v)),
        None => None,
    }
}

/// The optional 64-bit number as an optional integer.
pub open spec fn wide(value: Option<u64>) -> Option<int> {
    match value {
        Some(v) => Some(v as int),
        None => None,
    }
}

/// The optional 32-bit number as an optional integer.
pub open spec fn narrow(value: Option<i32>) -> Option<int> {
    match value {
        Some(v) => Some(v as int),
        None => None,
    }
}

/// The description of metadata: a heading and one line for each field
/// that is there, but for the version of the packed format.
pub open spec fn metadata_text(metadata: Metadata) -> Seq<char> {
    with_line(
        with_line(
            with_line(
                with_line(
                    with_line(
                        with_line(
                            with_line("Metadata:\n"@, "  Author: "@, text_view(metadata.author)),
                            "  Name: "@,
                            text_view(metadata.name),
                        ),
                        "  Description: "@,
                        text_view(metadata.description),
                    ),
                    "  Created: "@,
                    numeral(wide(metadata.created)),
                ),
                "  Modified: "@,
                numeral(wide(metadata.modified)),
            ),
            "  Minecraft Version: "@,
            numeral(narrow(metadata.mc_version)),
        ),
        "  WorldEdit Version: "@,
        numeral(narrow(metadata.we_version)),
    )
}

/// Adds to `output` a line that says `label` and `value`.
pub fn push_line(output: &mut String, label: &str, value: &str)
    ensures
        final(output)@ == with_line(old(output)@, label@, Some(value@)),
{
    output.append(label);
    output.append(value);
    output.append("\n");
    proof {
        assert(output@ =~= with_line(old(output)@, label@, Some(value@)));
    }
}

/// A description of metadata.
pub fn format_metadata(metadata: &Metadata) -> (r: String)
    ensures
        r@ == metadata_text(*metadata),
{
    let mut output = "Metadata:\n".to_string();
    if let Some(author) = &metadata.author {
        push_line(&mut output, "  Author: ", author.as_str());
    }
    if let Some(name) = &metadata.name {
        push_line(&mut output, "  Name: ", name.as_str());
    }
    if let Some(description) = &metadata.description {
        push_line(&mut output, "  Description: ", description.as_str());
    }
    if let Some(created) = metadata.created {
        proof {
            assert(signed_decimal(created as int) == decimal(created as nat));
        }
        push_line(&mut output, "  Created: ", u64_to_string(created).as_str());
    }
    if let Some(modified) = metadata.modified {
        proof {
            assert(signed_decimal(modified as int) == decimal(modified as nat));
        }
        push_line(&mut output, "  Modified: ", u64_to_string(modified).as_str());
    }
    if let Some(mc_version) = metadata.mc_version {
        push_line(&mut output, "  Minecraft Version: ", i64_to_string(mc_version as i64).as_str());
    }
    if let Some(we_version) = metadata.we_version {
        push_line(&mut output, "  WorldEdit Version: ", i64_to_string(we_version as i64).as_str());
    }
    output
}

/// The lines of the properties: for each of `entries` its key and its
/// value.
pub open spec fn property_lines(entries: Seq<Entry>) -> Seq<char>
    decreases entries.len(),
{
    if entries.len() == 0 {
        Seq::empty()
    } else {
        property_lines(entries.drop_last()) + "  "@ + entries.last().0 + ": "@ + entries.last().1
            + "\n"@
    }
}

/// The description of a block state: its name and, when it has any, a
/// heading and one line for each property.
pub open spec fn block_text(name: Seq<char>, entries: Seq<Entry>) -> Seq<char> {
    if entries.len() == 0 {
        "Block: "@ + name + "\n"@
    } else {
        "Block: "@ + name + "\n"@ + "Properties:\n"@ + property_lines(entries)
    }
}

/// A description of a block state.
pub fn format_block_state(block: &BlockState) -> (r: String)
    ensures
        r@ == block_text(block.name@, block.properties.entries()),
{
    let mut output = "Block: ".to_string();
    output.append(block.name.as_str());
    output.append("\n");
    let n = block.properties.len();
    if n == 0 {
        proof {
            assert(output@ =~= "Block: "@ + block.name@ + "\n"@);
        }
        return output;
    }
    output.append("Properties:\n");
    let ghost entries = block.properties.entries();
    let ghost head = "Block: "@ + block.name@ + "\n"@ + "Properties:\n"@;
    let mut i: usize = 0;
    proof {
        assert(entries.take(0) =~= Seq::<Entry>::empty());
        assert(output@ =~= head + property_lines(entries.take(0)));
    }
    while i < n
        invariant
            i <= n,
            n == entries.len(),
            entries == block.properties.entries(),
            output@ == head + property_lines(entries.take(i as int)),
        decreases n - i,
    {
        output.append("  ");
        output.append(block.properties.key_at(i).as_str());
        output.append(": ");
        output.append(block.properties.value_at(i).as_str());
        output.append("\n");
        proof {
            assert(entries.take(i as int + 1).drop_last() =~= entries.take(i as int));
            assert(entries.take(i as int + 1).last() == entries[i as int]);
            assert(output@ =~= head + property_lines(entries.take(i as int + 1)));
        }
        i += 1;
    }
    proof {
        assert(entries.take(n as int) =~= entries);
    }
    output
}

/// The text `(x, y, z)` of a triple.
pub open spec fn triple_text(x: int, y: int, z: int) -> Seq<char> {
    "("@ + signed_decimal(x) + ", "@ + signed_decimal(y) + ", "@ + signed_decimal(z) + ")"@
}

/// The text `(x, y, z)` of a triple.
pub fn format_triple(v: (i32, i32, i32)) -> (r: String)
    ensures
        r@ == triple_text(v.0 as int, v.1 as int, v.2 as int),
{
    let mut output = "(".to_string();
    output.append(i64_to_string(v.0 as i64).as_str());
    output.append(", ");
    output.append(i64_to_string(v.1 as i64).as_str());
    output.append(", ");
    output.append(i64_to_string(v.2 as i64).as_str());
    output.append(")");
    proof {
        assert(output@ =~= triple_text(v.0 as int, v.1 as int, v.2 as int));
    }
    output
}

/// The lines of the first `count` voxels of a region: for each its
/// palette index, its point and the text form of its block.
pub open spec fn voxel_lines(region: Region, count: nat) -> Seq<char>
    decreases count,
{
    if count == 0 {
        Seq::empty()
    } else {
        let p = region.spec_bounding_box().spec_coords(count - 1);
        let block = region.palette[region.blocks[count - 1] as int];
        voxel_lines(region, (count - 1) as nat) + "      "@ + decimal(
            region.blocks[count - 1] as nat,
        ) + " @ "@ + triple_text(p.0, p.1, p.2) + ": "@ + block_state_text(
            block.name@,
            block.properties.entries(),
        ) + "\n"@
    }
}

/// The description of a region under the name `name`: its position and
/// size and one line for each voxel.
pub open spec fn region_text(name: Seq<char>, region: Region) -> Seq<char> {
    "  Region: "@ + name + "\n"@ + "    Position: "@ + triple_text(
        region.position.0 as int,
        region.position.1 as int,
        region.position.2 as int,
    ) + "\n"@ + "    Size: "@ + triple_text(
        region.size.0 as int,
        region.size.1 as int,
        region.size.2 as int,
    ) + "\n"@ + "    Blocks:\n"@ + voxel_lines(region, region.blocks.len() as nat)
}

/// A description of `region` under the name `name`.
pub fn format_region(name: &str, region: &Region) -> (r: String)
    requires
        region.wf(),
    ensures
        r@ == region_text(name@, *region),
{
    let mut output = "  Region: ".to_string();
    output.append(name);
    output.append("\n");
    output.append("    Position: ");
    output.append(format_triple(region.position).as_str());
    output.append("\n");
    output.append("    Size: ");
    output.append(format_triple(region.size).as_str());
    output.append("\n");
    output.append("    Blocks:\n");
    let ghost head = output@;
    let mut i: usize = 0;
    proof {
        assert(output@ =~= head + voxel_lines(*region, 0));
    }
    while i < region.blocks.len()
        invariant
            i <= region.blocks.len(),
            region.wf(),
            output@ == head + voxel_lines(*region, i as nat),
        decreases region.blocks.len() - i,
    {
        let index = region.blocks[i];
        let position = region.index_to_coords(i);
        let block = &region.palette[index];
        output.append("      ");
        output.append(u64_to_string(index as u64).as_str());
        output.append(" @ ");
        output.append(format_triple(position).as_str());
        output.append(": ");
        output.append(block.to_string().as_str());
        output.append("\n");
        proof {
            assert(output@ =~= head + voxel_lines(*region, (i + 1) as nat));
        }
        i += 1;
    }
    proof {
        assert(head =~= "  Region: "@ + name@ + "\n"@ + "    Position: "@ + triple_text(
            region.position.0 as int,
            region.position.1 as int,
            region.position.2 as int,
        ) + "\n"@ + "    Size: "@ + triple_text(
            region.size.0 as int,
            region.size.1 as int,
            region.size.2 as int,
        ) + "\n"@ + "    Blocks:\n"@);
    }
    output
}

/// The descriptions of the first `count` regions, one after another.
pub open spec fn regions_text(named: Seq<(Seq<char>, Region)>, count: nat) -> Seq<char>
    decreases count,
{
    if count == 0 {
        Seq::empty()
    } else {
        regions_text(named, (count - 1) as nat) + region_text(
            named[count - 1].0,
            named[count - 1].1,
        )
    }
}

/// A description of a schematic: its metadata and its regions in their
/// order.
pub fn format_schematic(schematic: &UniversalSchematic) -> (r: String)
    requires
        schematic.wf(),
    ensures
        r@ == "Schematic:\n"@ + metadata_text(schematic.metadata) + "Regions:\n"@ + regions_text(
            schematic.regions.named(),
            schematic.regions.entries.len() as nat,
        ),
{
    let mut output = "Schematic:\n".to_string();
    output.append(format_metadata(&schematic.metadata).as_str());
    output.append("Regions:\n");
    let ghost head = output@;
    let ghost named = schematic.regions.named();
    let mut i: usize = 0;
    proof {
        assert(output@ =~= head + regions_text(named, 0));
    }
    while i < schematic.regions.entries.len()
        invariant
            i <= schematic.regions.entries.len(),
            schematic.wf(),
            named == schematic.regions.named(),
            output@ == head + regions_text(named, i as nat),
        decreases schematic.regions.entries.len() - i,
    {
        let text = format_region(
            schematic.regions.entries[i].0.as_str(),
            &schematic.regions.entries[i].1,
        );
        output.append(text.as_str());
        proof {
            assert(named[i as int] == (
                schematic.regions.entries[i as int].0@,
                schematic.regions.entries[i as int].1,
            ));
            assert(output@ =~= head + regions_text(named, (i + 1) as nat));
        }
        i += 1;
    }
    output
}

} // verus!
