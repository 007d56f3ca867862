//! Items and their six axis permutations.

use vstd::prelude::*;

verus! {

/// One of the six ways to lay an item's three edges along the
/// container's width, height and depth axes.
#[derive(Clone, Copy, Debug, PartialEq, Eq, Structural)]
pub enum Rotation {
    WHD,
    HWD,
    HDW,
    DHW,
    DWH,
    WDH,
}

/// The rotation that a label names; any label that is not one of the
/// six known ones names the identity rotation.
pub open spec fn rotation_of_label(label: Seq<char>) -> Rotation {
    if label == "RT_HWD"@ {
        Rotation::HWD
    } else if label == "RT_HDW"@ {
        Rotation::HDW
    } else if label == "RT_DHW"@ {
        Rotation::DHW
    } else if label == "RT_DWH"@ {
        Rotation::DWH
    } else if label == "RT_WDH"@ {
        Rotation::WDH
    } else {
        Rotation::WHD
    }
}

/// The extents of an item along the container's width, height and
/// depth axes (in this order) when its edges are permuted by `r`.
pub open spec fn rotated(width: u32, depth: u32, height: u32, r: Rotation) -> Seq<u32> {
    match r {
        Rotation::WHD => seq![width, height, depth],
        Rotation::HWD => seq![height, width, depth],
        Rotation::HDW => seq![height, depth, width],
        Rotation::DHW => seq![depth, height, width],
        Rotation::DWH => seq![depth, width, height],
        Rotation::WDH => seq![width, depth, height],
    }
}

impl Rotation {
    /// Reads a rotation label, falling back to the identity rotation.
    pub fn from_label(key: &str) -> (r: Rotation)
        ensures
            r == rotation_of_label(key@),
    {
        let k = key.to_owned();
        if k == "RT_HWD".to_owned() {
            Rotation::HWD
        } else if k == "RT_HDW".to_owned() {
            Rotation::HDW
        } else if k == "RT_DHW".to_owned() {
            Rotation::DHW
        } else if k == "RT_DWH".to_owned() {
            Rotation::DWH
        } else if k == "RT_WDH".to_owned() {
            Rotation::WDH
        } else {
            Rotation::WHD
        }
    }
}

/// The label that names a rotation.
pub open spec fn label_of_rotation(r: Rotation) -> Seq<char> {
    match r {
        Rotation::WHD => "RT_WHD"@,
        Rotation::HWD => "RT_HWD"@,
        Rotation::HDW => "RT_HDW"@,
        Rotation::DHW => "RT_DHW"@,
        Rotation::DWH => "RT_DWH"@,
        Rotation::WDH => "RT_WDH"@,
    }
}

/// Reading the label of a rotation gives that rotation back.
pub proof fn lemma_label_round_trip(r: Rotation)
    ensures
        rotation_of_label(label_of_rotation(r)) == r,
{
    reveal_strlit("RT_WHD");
    reveal_strlit("RT_HWD");
    reveal_strlit("RT_HDW");
    reveal_strlit("RT_DHW");
    reveal_strlit("RT_DWH");
    reveal_strlit("RT_WDH");
    let l = label_of_rotation(r);
    assert(l.len() == 6);
    assert("RT_WHD"@[3] == 'W' && "RT_WHD"@[4] == 'H');
    assert("RT_HWD"@[3] == 'H' && "RT_HWD"@[4] == 'W');
    assert("RT_HDW"@[3] == 'H' && "RT_HDW"@[4] == 'D');
    assert("RT_DHW"@[3] == 'D' && "RT_DHW"@[4] == 'H');
    assert("RT_DWH"@[3] == 'D' && "RT_DWH"@[4] == 'W');
    assert("RT_WDH"@[3] == 'W' && "RT_WDH"@[4] == 'D');
}

impl Rotation {
    /// The label of this rotation.
    pub fn label(self) -> (s: String)
        ensures
            s@ == label_of_rotation(self),
            rotation_of_label(s@) == self,
    {
        proof {
            lemma_label_round_trip(self);
        }
        match self {
            Rotation::WHD => "RT_WHD".to_owned(),
            Rotation::HWD => "RT_HWD".to_owned(),
            Rotation::HDW => "RT_HDW".to_owned(),
            Rotation::DHW => "RT_DHW".to_owned(),
            Rotation::DWH => "RT_DWH".to_owned(),
            Rotation::WDH => "RT_WDH".to_owned(),
        }
    }

    /// The extents of a `width` x `depth` x `height` item along the
    /// container's width, height and depth axes under this rotation.
    pub fn apply(self, width: u32, depth: u32, height: u32) -> (d: [u32; 3])
        ensures
            d@ == rotated(width, depth, height, self),
    {
        let d = match self {
            Rotation::WHD => [width, height, depth],
            Rotation::HWD => [height, width, depth],
            Rotation::HDW => [height, depth, width],
            Rotation::DHW => [depth, height, width],
            Rotation::DWH => [depth, width, height],
            Rotation::WDH => [width, depth, height],
        };
        assert(d@ =~= rotated(width, depth, height, self));
        d
    }
}

/// A line of an order as it arrives from the caller: `quantity` equal
/// units of one description.
#[derive(Debug)]
pub struct RawItem {
    pub name: String,
    pub quantity: i32,
    pub depth: u32,
    pub width: u32,
    pub height: u32,
    pub weight: u64,
}

/// The mathematical value of a [`RawItem`].
pub struct RawItemView {
    pub name: Seq<char>,
    pub quantity: i32,
    pub depth: u32,
    pub width: u32,
    pub height: u32,
    pub weight: u64,
}

impl View for RawItem {
    type V = RawItemView;

    open spec fn view(&self) -> RawItemView {
        RawItemView {
            name: self.name@,
            quantity: self.quantity,
            depth: self.depth,
            width: self.width,
            height: self.height,
            weight: self.weight,
        }
    }
}

/// A rectangular item. Lengths and weight are whole numbers of the
/// caller's unit. `rotation` and `position` are meaningful once the
/// item has been packed: the position is the lower corner of the item
/// inside its container, along the width, height and depth axes.
#[derive(Debug)]
pub struct Item {
    pub name: String,
    pub width: u32,
    pub depth: u32,
    pub height: u32,
    pub weight: u64,
    pub orientable: Option<bool>,
    pub stackable: Option<bool>,
    pub rotation: String,
    pub position: [u32; 3],
}

/// The mathematical value of an [`Item`].
pub struct ItemView {
    pub name: Seq<char>,
    pub width: u32,
    pub depth: u32,
    pub height: u32,
    pub weight: u64,
    pub orientable: Option<bool>,
    pub stackable: Option<bool>,
    pub rotation: Seq<char>,
    pub position: Seq<u32>,
}

impl ItemView {
    /// Width times depth times height.
    pub open spec fn volume(self) -> int {
        self.width as int * self.depth as int * self.height as int
    }

    /// The item's extents under the rotation that `label` names.
    pub open spec fn rotated_dimension(self, label: Seq<char>) -> Seq<u32> {
        rotated(self.width, self.depth, self.height, rotation_of_label(label))
    }

    /// The item's extents under its own recorded rotation.
    pub open spec fn extent(self) -> Seq<u32> {
        self.rotated_dimension(self.rotation)
    }

    /// Whether the item may take all six rotations (the default).
    pub open spec fn is_orientable(self) -> bool {
        match self.orientable {
            Some(o) => o,
            None => true,
        }
    }

    /// Whether the pivot above the item may be opened (the default).
    pub open spec fn is_stackable(self) -> bool {
        match self.stackable {
            Some(s) => s,
            None => true,
        }
    }

    /// This item as it is once packed at `position` under `rotation`.
    pub open spec fn placed(self, rotation: Rotation, position: Seq<u32>) -> ItemView {
        ItemView { rotation: label_of_rotation(rotation), position: position, ..self }
    }
}

impl View for Item {
    type V = ItemView;

    open spec fn view(&self) -> ItemView {
        ItemView {
            name: self.name@,
            width: self.width,
            depth: self.depth,
            height: self.height,
            weight: self.weight,
            orientable: self.orientable,
            stackable: self.stackable,
            rotation: self.rotation@,
            position: self.position@,
        }
    }
}

impl Item {
    pub fn get_volume(&self) -> (v: u128)
        ensures
            v == self@.volume(),
    {
        volume_of(self.width, self.depth, self.height)
    }

    pub fn get_rotated_dimension(&self, key: &str) -> (d: [u32; 3])
        ensures
            d@ == self@.rotated_dimension(key@),
    {
        Rotation::from_label(key).apply(self.width, self.depth, self.height)
    }

    /// A copy of this item, equal to it in every field.
    pub fn duplicate(&self) -> (r: Item)
        ensures
            r@ == self@,
    {
        Item {
            name: self.name.clone(),
            width: self.width,
            depth: self.depth,
            height: self.height,
            weight: self.weight,
            orientable: self.orientable,
            stackable: self.stackable,
            rotation: self.rotation.clone(),
            position: self.position,
        }
    }
}

/// The product of three lengths is not negative and below 2^96.
pub proof fn lemma_volume_bounds(width: u32, depth: u32, height: u32)
    ensures
        0 <= width as int * depth as int * height as int <= 0xffff_ffff * 0xffff_ffff
            * 0xffff_ffff,
{
    assert(0 <= width as int * depth as int <= 0xffff_ffff * 0xffff_ffff) by (nonlinear_arith)
        requires
            0 <= width <= 0xffff_ffff,
            0 <= depth <= 0xffff_ffff,
    ;
    let base = width as int * depth as int;
    assert(0 <= base * height as int <= 0xffff_ffff * 0xffff_ffff * 0xffff_ffff)
        by (nonlinear_arith)
        requires
            0 <= base <= 0xffff_ffff * 0xffff_ffff,
            0 <= height <= 0xffff_ffff,
    ;
}

/// The product of three lengths, which always fits in 128 bits.
pub fn volume_of(width: u32, depth: u32, height: u32) -> (v: u128)
    ensures
        v == width as int * depth as int * height as int,
        v <= 0xffff_ffff_ffff_ffff_ffff_ffff,
{
    assert(width as int * depth as int <= 0xffff_ffff * 0xffff_ffff) by (nonlinear_arith)
        requires
            0 <= width <= 0xffff_ffff,
            0 <= depth <= 0xffff_ffff,
    ;
    let base: u64 = (width as u64) * (depth as u64);
    assert(base as int * height as int <= 0xffff_ffff_ffff_ffff * 0xffff_ffff) by (nonlinear_arith)
        requires
            0 <= base <= 0xffff_ffff_ffff_ffff,
            0 <= height <= 0xffff_ffff,
    ;
    (base as u128) * (height as u128)
}

} // verus!
