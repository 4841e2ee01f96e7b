use vstd::prelude::*;

verus! {

/// The font an item's icon glyph is drawn with; carried through untouched.
#[verifier::external_type_specification]
#[verifier::external_body]
pub struct ExFont(iced::Font);

/// One node of a picker tree: an identity, a label, an optional icon and the
/// child nodes it owns.
#[derive(Debug)]
pub struct PickerItem<Id> {
    pub id: Id,
    pub label: String,
    pub icon: Option<char>,
    pub icon_font: Option<iced::Font>,
    pub children: Vec<PickerItem<Id>>,
    pub selectable: bool,
}

impl<Id> PickerItem<Id> {
    /// A selectable leaf with no icon.
    pub fn new(id: Id, label: String) -> (r: Self)
        ensures
            r.id == id,
            r.label@ == label@,
            r.icon is None,
            r.icon_font is None,
            r.children@.len() == 0,
            r.selectable,
    {
        PickerItem {
            id,
            label,
            icon: None,
            icon_font: None,
            children: Vec::new(),
            selectable: true,
        }
    }

    /// Gives the node an icon glyph drawn with `font`.
    pub fn with_icon(self, icon: char, font: iced::Font) -> (r: Self)
        ensures
            r == (PickerItem { icon: Some(icon), icon_font: Some(font), ..self }),
    {
        PickerItem { icon: Some(icon), icon_font: Some(font), ..self }
    }

    /// Replaces the node's children.
    pub fn with_children(self, children: Vec<PickerItem<Id>>) -> (r: Self)
        ensures
            r == (PickerItem { children, ..self }),
    {
        PickerItem { children, ..self }
    }

    /// Sets whether activating the node's line emits a select event.
    pub fn selectable(self, selectable: bool) -> (r: Self)
        ensures
            r == (PickerItem { selectable, ..self }),
    {
        PickerItem { selectable, ..self }
    }
}

impl<Id: Clone> Clone for PickerItem<Id> {
    /// Copies the node and, recursively, every node below it.
    fn clone(&self) -> (r: Self)
        ensures
            cloned(self.id, r.id),
            r.label@ == self.label@,
            r.icon == self.icon,
            r.icon_font == self.icon_font,
            r.selectable == self.selectable,
            r.children@.len() == self.children@.len(),
        decreases self,
    {
        let mut children: Vec<PickerItem<Id>> = Vec::new();
        let n = self.children.len();
        for i in 0..n
            invariant
                n == self.children@.len(),
                children@.len() == i,
        {
            assert(decreases_to!(self => self.children@[i as int]));
            children.push(self.children[i].clone());
        }
        PickerItem {
            id: self.id.clone(),
            label: self.label.clone(),
            icon: self.icon,
            icon_font: self.icon_font,
            children,
            selectable: self.selectable,
        }
    }
}

} // verus!
