//! The widget registry: which widgets exist, by name, and the index a
//! [`Panel`] is into it. Everything a widget is — its name, its label and
//! which board it may stand on — comes from the registry, so adding a
//! widget never means touching this type. The sizes a layout gives each
//! widget are the layout's, and live beside the registry, not in it.

use vstd::prelude::*;
use crate::text::{chars_of, eq_ignore_case, eq_ignore_case_in};

verus! {

/// An individually placeable widget: an index into the registry.
#[derive(Clone, Copy, PartialEq, Eq, Debug, Hash, Structural)]
pub struct Panel(pub u16);

/// Which kind of board a widget can be placed on. The directory a
/// widget is installed under decides: `widgets/board` for the ordinary
/// boards, `widgets/appgrid` for the bottom fixture board,
/// `widgets/search_and_ai` for the top one.
#[derive(Clone, Copy, PartialEq, Eq, Debug, Structural)]
pub enum WidgetCategory {
    /// Home and the horizontal arms.
    Board,
    /// The bottom fixture board.
    Appgrid,
    /// The top fixture board.
    SearchAi,
}

impl Default for WidgetCategory {
    fn default() -> (c: WidgetCategory)
        ensures
            c == WidgetCategory::Board,
    {
        WidgetCategory::Board
    }
}

/// What the program knows about one widget before it draws: the name a
/// `.layaut` file uses, the label the editor shows and the board it may
/// stand on.
#[derive(Clone, Debug)]
pub struct WidgetDef {
    /// Name used in .layaut files and as the directory name.
    pub name: String,
    /// Label shown in the layout editor.
    pub label: String,
    /// Which kind of board this widget may be placed on.
    pub category: WidgetCategory,
}

/// The widget registry, in the order the directory scan found them.
pub struct Registry {
    pub defs: Vec<WidgetDef>,
}

impl Registry {
    pub fn new(defs: Vec<WidgetDef>) -> (r: Registry)
        ensures
            r.defs@ == defs@,
    {
        Registry { defs }
    }

    /// The name of the `i`-th widget.
    pub open spec fn name_at(&self, i: int) -> Seq<char> {
        self.defs@[i].name@
    }

    /// The first widget whose name matches `name` ignoring ASCII case, or
    /// the registry's length when none does.
    pub open spec fn position(&self, name: Seq<char>) -> int
        decreases self.defs@.len(),
    {
        self.position_from(name, 0)
    }

    pub open spec fn position_from(&self, name: Seq<char>, i: int) -> int
        decreases self.defs@.len() - i,
    {
        if i < 0 || i >= self.defs@.len() {
            self.defs@.len() as int
        } else if eq_ignore_case(self.name_at(i), name) {
            i
        } else {
            self.position_from(name, i + 1)
        }
    }
}

/// How many widgets the registry holds.
pub fn panel_count(reg: &Registry) -> (n: usize)
    ensures
        n == reg.defs@.len(),
{
    reg.defs.len()
}

impl Panel {
    pub open spec fn index(self) -> int {
        self.0 as int
    }

    pub fn idx(self) -> (i: usize)
        ensures
            i == self.0,
    {
        self.0 as usize
    }

    /// Every registered widget, in registry order.
    pub fn all(reg: &Registry) -> (v: Vec<Panel>)
        ensures
            v@.len() == (reg.defs@.len() as u16) as nat,
            forall|i: int| 0 <= i < v@.len() ==> #[trigger] v@[i] == Panel(i as u16),
    {
        let n = reg.defs.len() as u16;
        let mut v: Vec<Panel> = Vec::new();
        let mut i: u16 = 0;
        while i < n
            invariant
                i <= n,
                v@.len() == i,
                forall|j: int| 0 <= j < i ==> #[trigger] v@[j] == Panel(j as u16),
            decreases n - i,
        {
            v.push(Panel(i));
            i += 1;
        }
        v
    }

    /// Name used in .layaut files; `?` for an index the registry does not
    /// hold.
    pub fn name<'a>(self, reg: &'a Registry) -> (s: &'a str)
        ensures
            s@ == if self.index() < reg.defs@.len() {
                reg.name_at(self.index())
            } else {
                "?"@
            },
    {
        if (self.0 as usize) < reg.defs.len() {
            reg.defs[self.0 as usize].name.as_str()
        } else {
            "?"
        }
    }

    /// Label shown in the layout editor; `?` for an index the registry
    /// does not hold.
    pub fn label<'a>(self, reg: &'a Registry) -> (s: &'a str)
        ensures
            s@ == if self.index() < reg.defs@.len() {
                reg.defs@[self.index()].label@
            } else {
                "?"@
            },
    {
        if (self.0 as usize) < reg.defs.len() {
            reg.defs[self.0 as usize].label.as_str()
        } else {
            "?"
        }
    }

    /// Which kind of board this widget may be placed on; an index the
    /// registry does not hold is an ordinary board widget.
    pub fn category(self, reg: &Registry) -> (c: WidgetCategory)
        ensures
            c == if self.index() < reg.defs@.len() {
                reg.defs@[self.index()].category
            } else {
                WidgetCategory::Board
            },
    {
        if (self.0 as usize) < reg.defs.len() {
            reg.defs[self.0 as usize].category
        } else {
            WidgetCategory::Board
        }
    }

    /// The first registered widget named `name`, ignoring ASCII case.
    pub fn from_name(reg: &Registry, name: &str) -> (r: Option<Panel>)
        ensures
            match r {
                Some(p) => reg.position(name@) < reg.defs@.len() && p == Panel(
                    reg.position(name@) as u16,
                ),
                None => reg.position(name@) == reg.defs@.len(),
            },
    {
        let w = chars_of(name);
        let mut i: usize = 0;
        while i < reg.defs.len()
            invariant
                i <= reg.defs@.len(),
                w@ == name@,
                reg.position(name@) == reg.position_from(name@, i as int),
            decreases reg.defs.len() - i,
        {
            let v = chars_of(reg.defs[i].name.as_str());
            let hit = eq_ignore_case_in(&v, 0, v.len(), &w);
            assert(v@.subrange(0, v@.len() as int) == v@);
            if hit {
                return Some(Panel(i as u16));
            }
            i += 1;
        }
        None
    }
}

} // verus!
