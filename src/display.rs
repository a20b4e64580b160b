use vstd::prelude::*;

use crate::state::ObjectiveState;

verus! {

/// A check-box parameter: the node it drives and whether it is ticked.
#[derive(Clone, Debug, PartialEq, Eq)]
pub struct CheckBoxParamValue {
    pub id: String,
    pub value: bool,
}

#[derive(Clone, Debug, PartialEq, Eq)]
pub enum ModuleParamValue {
    TextBox(String),
    CheckBox(CheckBoxParamValue),
}

/// A module parameter as the settings view shows it.
#[derive(Clone, Debug, PartialEq, Eq)]
pub struct ModuleParam {
    pub name: String,
    pub value: ModuleParamValue,
}

/// One node shown in a grid.
#[derive(Clone, Debug, PartialEq, Eq)]
pub struct DisplayChild {
    pub id: String,
    pub ty: String,
    pub state: ObjectiveState,
}

#[derive(Clone, Debug, PartialEq, Eq)]
pub struct DisplayViewGrid {
    pub columns: usize,
    pub children: Vec<DisplayChild>,
}

/// How many nodes of one type are found (unlocked or complete), out of all of them.
#[derive(Clone, Copy, Debug, PartialEq, Eq)]
pub struct DisplayViewCount {
    pub found: u32,
    pub total: u32,
}

#[derive(Clone, Copy, Debug, PartialEq, Eq)]
pub struct DisplayViewSpacer {}

#[derive(Clone, Copy, Debug, PartialEq, Eq)]
pub enum ThemeColor {
    Clear,
    BgDark,
    BgLight,
}

#[derive(Clone, Copy, Debug, PartialEq, Eq)]
pub enum CornerRadius {
    Zero,
    Small,
    Large,
}

#[derive(Clone, Copy, Debug, PartialEq, Eq)]
pub enum Inset {
    Zero,
    Small,
    Large,
}

/// Placement of children across the main axis of a flex view.
#[derive(Clone, Copy, Debug, PartialEq, Eq)]
pub enum CrossAxisAlignment {
    Start,
    Center,
    End,
}

/// Placement of children along the main axis of a flex view.
#[derive(Clone, Copy, Debug, PartialEq, Eq)]
pub enum MainAxisAlignment {
    Start,
    Center,
    End,
    SpaceBetween,
    SpaceEvenly,
    SpaceAround,
}

impl Default for ThemeColor {
    fn default() -> (r: ThemeColor)
        ensures
            r == ThemeColor::Clear,
    {
        ThemeColor::Clear
    }
}

impl Default for CornerRadius {
    fn default() -> (r: CornerRadius)
        ensures
            r == CornerRadius::Zero,
    {
        CornerRadius::Zero
    }
}

impl Default for Inset {
    fn default() -> (r: Inset)
        ensures
            r == Inset::Zero,
    {
        Inset::Zero
    }
}

} // verus!
