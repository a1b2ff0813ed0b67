//! Which texture each material shows.

use vstd::prelude::*;

verus! {

/// The texture of a material: an image of the model, by its index, or the white
/// texture that stands in where there is none.
#[derive(Clone, Copy, Debug, PartialEq, Eq, Structural)]
pub enum TextureChoice {
    White,
    Image(usize),
}

/// The texture of a material whose base color names the texture `base_color`;
/// `textures` gives the image of every texture.
pub open spec fn chosen_texture(textures: Seq<usize>, base_color: Option<usize>) -> TextureChoice {
    match base_color {
        Some(t) => if t < textures.len() {
            TextureChoice::Image(textures[t as int])
        } else {
            TextureChoice::White
        },
        None => TextureChoice::White,
    }
}

/// The textures of all materials. A model without materials gets a white one.
pub open spec fn material_textures(textures: Seq<usize>, base_colors: Seq<Option<usize>>) -> Seq<TextureChoice> {
    if base_colors.len() == 0 {
        seq![TextureChoice::White]
    } else {
        base_colors.map_values(|b: Option<usize>| chosen_texture(textures, b))
    }
}

/// Resolves the texture of every material, in order.
pub fn resolve_materials(textures: &Vec<usize>, base_colors: &Vec<Option<usize>>) -> (r: Vec<TextureChoice>)
    ensures
        r@ == material_textures(textures@, base_colors@),
        r@.len() > 0,
        base_colors@.len() > 0 ==> r@.len() == base_colors@.len(),
        base_colors@.len() == 0 ==> r@.len() == 1 && r@[0] is White,
        forall|i: int|
            0 <= i < base_colors@.len() ==> match base_colors@[i] {
                Some(t) => {
                    &&& t < textures@.len() ==> #[trigger] r@[i] == TextureChoice::Image(textures@[t as int])
                    &&& t >= textures@.len() ==> r@[i] is White
                },
                None => r@[i] is White,
            },
{
    let mut r: Vec<TextureChoice> = Vec::new();
    while r.len() < base_colors.len()
        invariant
            r@.len() <= base_colors@.len(),
            forall|i: int| 0 <= i < r@.len() ==> #[trigger] r@[i] == chosen_texture(textures@, base_colors@[i]),
        decreases base_colors@.len() - r@.len(),
    {
        let choice = match base_colors[r.len()] {
            Some(t) => if t < textures.len() {
                TextureChoice::Image(textures[t])
            } else {
                TextureChoice::White
            },
            None => TextureChoice::White,
        };
        r.push(choice);
    }
    if r.len() == 0 {
        r.push(TextureChoice::White);
    }
    assert(r@ =~= material_textures(textures@, base_colors@));
    r
}

/// Every material has an entry of its own. It is an image exactly if the base
/// color names a texture that exists, and then it is that texture's image;
/// otherwise it is white.
pub proof fn lemma_materials_show_their_textures(textures: Seq<usize>, base_colors: Seq<Option<usize>>, i: int)
    requires
        0 <= i < base_colors.len(),
    ensures
        material_textures(textures, base_colors).len() == base_colors.len(),
        forall|t: usize|
            base_colors[i] == Some(t) && t < textures.len() ==> material_textures(textures, base_colors)[i]
                == TextureChoice::Image(#[trigger] textures[t as int]),
        base_colors[i] is None ==> material_textures(textures, base_colors)[i] is White,
        base_colors[i] matches Some(t) ==> (t >= textures.len() ==> material_textures(textures, base_colors)[i] is White),
{
}

/// A material depends on its own base color alone: materials can be resolved
/// apart and put together.
pub proof fn lemma_materials_resolve_alone(
    textures: Seq<usize>,
    left: Seq<Option<usize>>,
    right: Seq<Option<usize>>,
)
    requires
        left.len() > 0,
        right.len() > 0,
    ensures
        material_textures(textures, left + right) == material_textures(textures, left) + material_textures(
            textures,
            right,
        ),
{
    assert(material_textures(textures, left + right) =~= material_textures(textures, left) + material_textures(
        textures,
        right,
    ));
}

/// A model always has a material, and no material shows an image that does not
/// exist, provided that the textures name none.
pub proof fn lemma_materials_show_existing_images(
    textures: Seq<usize>,
    base_colors: Seq<Option<usize>>,
    image_count: nat,
)
    requires
        forall|t: int| 0 <= t < textures.len() ==> #[trigger] textures[t] < image_count,
    ensures
        material_textures(textures, base_colors).len() > 0,
        forall|i: int|
            0 <= i < material_textures(textures, base_colors).len() ==> (#[trigger] material_textures(
                textures,
                base_colors,
            )[i] matches TextureChoice::Image(n) ==> n < image_count),
{
}

/// The label of the materials' bind groups: only the one that a model without
/// materials gets has a label.
pub open spec fn material_label(base_colors: Seq<Option<usize>>) -> Option<&'static str> {
    if base_colors.len() == 0 {
        Some("fallback_material")
    } else {
        None
    }
}

/// The label of the materials' bind groups.
pub fn label_of_materials(base_colors: &Vec<Option<usize>>) -> (r: Option<&'static str>)
    ensures
        r == material_label(base_colors@),
        base_colors@.len() == 0 ==> r == Some("fallback_material"),
        base_colors@.len() > 0 ==> r is None,
{
    if base_colors.len() == 0 {
        Some("fallback_material")
    } else {
        None
    }
}

/// The index of the material that a primitive uses: its own, or the first where
/// it names none, and never beyond the last.
pub open spec fn clamped_material(raw: Option<usize>, material_count: nat) -> int {
    let wanted = match raw {
        Some(m) => m as int,
        None => 0,
    };
    if wanted < material_count {
        wanted
    } else {
        material_count - 1
    }
}

/// Clamps the material index of a primitive.
pub fn clamp_material(raw: Option<usize>, material_count: usize) -> (r: usize)
    requires
        material_count > 0,
    ensures
        r == clamped_material(raw, material_count as nat),
        r < material_count,
        raw is None ==> r == 0,
        raw matches Some(m) ==> (m < material_count ==> r == m),
        raw matches Some(m) ==> (m >= material_count ==> r == material_count - 1),
{
    let wanted: usize = match raw {
        Some(m) => m,
        None => 0,
    };
    if wanted < material_count {
        wanted
    } else {
        material_count - 1
    }
}

/// A primitive uses the material that it names if there is one, the last if it
/// names one beyond, and the first if it names none.
pub proof fn lemma_material_is_nearest(raw: Option<usize>, material_count: nat)
    requires
        material_count > 0,
    ensures
        0 <= clamped_material(raw, material_count) < material_count,
        raw is None ==> clamped_material(raw, material_count) == 0,
        raw matches Some(m) ==> (m < material_count ==> clamped_material(raw, material_count) == m),
        raw matches Some(m) ==> (m >= material_count ==> clamped_material(raw, material_count) + 1 == material_count),
{
}

/// Only a model without materials has a label for them.
pub proof fn lemma_only_stand_in_is_labelled(base_colors: Seq<Option<usize>>)
    ensures
        material_label(base_colors) is Some <==> base_colors.len() == 0,
        material_label(base_colors) matches Some(label) ==> label == "fallback_material",
        forall|textures: Seq<usize>|
            base_colors.len() == 0 ==> #[trigger] material_textures(textures, base_colors) == seq![TextureChoice::White],
{
}

} // verus!
