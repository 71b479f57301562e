use vstd::prelude::*;

verus! {

/// What a unit is, as a value: its name and its quantity.
pub type UnitView = (Seq<char>, u32);

/// What a print is, as a value: its name and its units in order.
pub type PrintView = (Seq<char>, Seq<UnitView>);

/// A named component with a quantity.
pub struct Unit {
    pub name: String,
    pub quantity: u32,
}

impl View for Unit {
    type V = UnitView;

    open spec fn view(&self) -> UnitView {
        (self.name@, self.quantity)
    }
}

impl Unit {
    /// A unit with an empty name and no quantity.
    pub fn new() -> (r: Unit)
        ensures
            r@.0.len() == 0,
            r@.1 == 0,
    {
        Unit { name: String::new(), quantity: 0 }
    }

    /// A copy of this unit.
    pub fn duplicate(&self) -> (r: Unit)
        ensures
            r@ == self@,
    {
        Unit { name: self.name.clone(), quantity: self.quantity }
    }
}

impl Clone for Unit {
    fn clone(&self) -> (r: Unit)
        ensures
            r@ == self@,
    {
        self.duplicate()
    }
}

/// A named group of units.
pub struct Print {
    pub name: String,
    pub units: Vec<Unit>,
}

/// The views of a sequence of units.
pub open spec fn units_view(units: Seq<Unit>) -> Seq<UnitView> {
    units.map_values(|u: Unit| u@)
}

impl View for Print {
    type V = PrintView;

    open spec fn view(&self) -> PrintView {
        (self.name@, units_view(self.units@))
    }
}

/// The views of a sequence of prints.
pub open spec fn prints_view(prints: Seq<Print>) -> Seq<PrintView> {
    prints.map_values(|p: Print| p@)
}

/// No two units of the sequence share a name.
pub open spec fn distinct_unit_names(s: Seq<UnitView>) -> bool {
    forall|i: int, j: int| 0 <= i < s.len() && 0 <= j < s.len() && i != j ==> s[i].0 != s[j].0
}

/// No two prints of the sequence share a name.
pub open spec fn distinct_print_names(s: Seq<PrintView>) -> bool {
    forall|i: int, j: int| 0 <= i < s.len() && 0 <= j < s.len() && i != j ==> s[i].0 != s[j].0
}

/// No two prints of the sequence share a name, and no print holds two units of
/// one name.
pub open spec fn distinct_names(s: Seq<PrintView>) -> bool {
    &&& distinct_print_names(s)
    &&& forall|i: int| 0 <= i < s.len() ==> distinct_unit_names(#[trigger] s[i].1)
}

impl Print {
    /// A print of the given name with no units.
    pub fn new(name: String) -> (r: Print)
        ensures
            r@.0 == name@,
            r@.1.len() == 0,
    {
        let r = Print { name, units: Vec::new() };
        assert(r@.1 =~= Seq::<UnitView>::empty());
        r
    }
}

} // verus!
