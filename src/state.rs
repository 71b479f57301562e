use vstd::prelude::*;
use crate::document::{DocumentError, error_text, document_prints, json_document, json_text, normalized, parse_json, to_json};
use crate::models::{Print, PrintView, Unit, UnitView, distinct_names, distinct_print_names, distinct_unit_names, prints_view, units_view};
use crate::order::{decimal_of, parse_quantity};
use crate::sorting::{
    distinct_keys, lemma_print_le_total, lemma_sort_keeps_distinct, lemma_sort_members,
    lemma_sort_sorted, lemma_unit_le_total, print_le, sort_by, sort_prints, sort_units, sorted_by,
    unit_le,
};

verus! {

/// Some print of the sequence has this name.
pub open spec fn has_print(s: Seq<PrintView>, name: Seq<char>) -> bool {
    exists|i: int| 0 <= i < s.len() && (#[trigger] s[i]).0 == name
}

/// Some unit of the sequence has this name.
pub open spec fn has_unit(s: Seq<UnitView>, name: Seq<char>) -> bool {
    exists|i: int| 0 <= i < s.len() && (#[trigger] s[i]).0 == name
}

/// The editor's state: the prints of the open document, the selected print,
/// what the forms for a new print and a new unit hold, and the error shown.
pub struct BommieApp {
    pub current_print: usize,
    pub prints: Vec<Print>,
    pub potential_print: String,
    pub potential_unit: Unit,
    pub error_message: Option<String>,
}

/// Sorting prints keeps their names distinct, and the names of each print's
/// units where they were, and puts them in print order.
proof fn lemma_sort_prints_distinct(s: Seq<PrintView>)
    requires
        distinct_print_names(s),
    ensures
        distinct_print_names(sort_by(s, print_le())),
        distinct_names(s) ==> distinct_names(sort_by(s, print_le())),
        sorted_by(sort_by(s, print_le()), print_le()),
        sort_by(s, print_le()).len() == s.len(),
{
    lemma_print_le_total();
    lemma_sort_sorted(s, print_le());
    let pkey = |p: PrintView| p.0;
    assert(distinct_keys(s, pkey));
    lemma_sort_keeps_distinct(s, print_le(), pkey);
    lemma_sort_members(s, print_le());
    let t = sort_by(s, print_le());
    if distinct_names(s) {
        assert forall|i: int| 0 <= i < t.len() implies distinct_unit_names(#[trigger] t[i].1) by {
            assert(s.contains(t[i]));
        }
    }
}

/// Sorting units keeps their names distinct and puts them in order of name.
proof fn lemma_sort_units_distinct(s: Seq<UnitView>)
    requires
        distinct_unit_names(s),
    ensures
        distinct_unit_names(sort_by(s, unit_le())),
        sorted_by(sort_by(s, unit_le()), unit_le()),
        sort_by(s, unit_le()).len() == s.len(),
{
    lemma_unit_le_total();
    lemma_sort_sorted(s, unit_le());
    let ukey = |u: UnitView| u.0;
    assert(distinct_keys(s, ukey));
    lemma_sort_keeps_distinct(s, unit_le(), ukey);
}

impl BommieApp {
    /// Print names are distinct, and the selection lies within the prints (or
    /// is zero when there are none).
    pub open spec fn wf(&self) -> bool {
        &&& distinct_print_names(prints_view(self.prints@))
        &&& if self.prints.len() == 0 {
            self.current_print == 0
        } else {
            self.current_print < self.prints.len()
        }
    }

    /// An editor with an empty document and empty forms.
    pub fn new() -> (r: BommieApp)
        ensures
            r.wf(),
            r.prints.len() == 0,
            r.current_print == 0,
            r.potential_print@.len() == 0,
            r.potential_unit@ == (Seq::<char>::empty(), 0u32),
            r.error_message is None,
    {
        let r = BommieApp {
            current_print: 0,
            prints: Vec::new(),
            potential_print: String::new(),
            potential_unit: Unit::new(),
            error_message: None,
        };
        assert(r.potential_unit@.0 =~= Seq::<char>::empty());
        r
    }

    /// Starts a new, empty document and clears the error.
    pub fn new_document(&mut self)
        ensures
            final(self).wf(),
            final(self).prints.len() == 0,
            final(self).current_print == 0,
            final(self).error_message is None,
            final(self).potential_print == old(self).potential_print,
            final(self).potential_unit == old(self).potential_unit,
    {
        self.prints = Vec::new();
        self.current_print = 0;
        self.error_message = None;
    }

    /// Replaces the document with the one that `text` holds; `None` stands for
    /// a file that could not be read. On failure the document is emptied and
    /// the error's message is shown.
    pub fn open_document(&mut self, text: Option<String>) -> (r: Result<(), DocumentError>)
        ensures
            final(self).wf(),
            final(self).current_print == 0,
            final(self).potential_print == old(self).potential_print,
            final(self).potential_unit == old(self).potential_unit,
            text is None ==> r == Err::<(), DocumentError>(DocumentError::Read),
            text is Some && json_document(text->Some_0@) is None ==> r == Err::<(), DocumentError>(
                DocumentError::Parse,
            ),
            text is Some && json_document(text->Some_0@) is Some ==> r is Ok && prints_view(
                final(self).prints@,
            ) == document_prints(json_document(text->Some_0@).unwrap()) && final(self).error_message
                == old(self).error_message,
            r is Ok ==> normalized(prints_view(final(self).prints@)),
            r is Err ==> final(self).prints.len() == 0 && final(self).error_message is Some
                && final(self).error_message->Some_0@ == error_text(r->Err_0),
            r is Err ==> final(self).error_message->Some_0@ == "Error reading file"@,
    {
        let result = match text {
            None => Err(DocumentError::Read),
            Some(t) => parse_json(t),
        };
        self.current_print = 0;
        match result {
            Ok(prints) => {
                self.prints = prints;
                Ok(())
            },
            Err(e) => {
                self.prints = Vec::new();
                self.error_message = Some(e.message());
                Err(e)
            },
        }
    }

    /// The JSON text of the document.
    pub fn save_text(&self) -> (r: String)
        ensures
            r@ == json_text(prints_view(self.prints@)),
    {
        to_json(&self.prints)
    }

    /// Shows the message of an error.
    pub fn report_error(&mut self, e: DocumentError)
        ensures
            final(self).prints@ == old(self).prints@,
            final(self).current_print == old(self).current_print,
            final(self).potential_print == old(self).potential_print,
            final(self).potential_unit == old(self).potential_unit,
            final(self).error_message is Some,
            final(self).error_message->Some_0@ == error_text(e),
    {
        self.error_message = Some(e.message());
    }

    /// Dismisses the error shown.
    pub fn clear_error(&mut self)
        ensures
            final(self).prints@ == old(self).prints@,
            final(self).current_print == old(self).current_print,
            final(self).potential_print == old(self).potential_print,
            final(self).potential_unit == old(self).potential_unit,
            final(self).error_message is None,
    {
        self.error_message = None;
    }

    /// Selects the print at `i`, if there is one.
    pub fn select_print(&mut self, i: usize)
        requires
            old(self).wf(),
        ensures
            final(self).wf(),
            final(self).prints@ == old(self).prints@,
            final(self).current_print == if i < old(self).prints.len() {
                i
            } else {
                old(self).current_print
            },
            final(self).potential_print == old(self).potential_print,
            final(self).potential_unit == old(self).potential_unit,
            final(self).error_message == old(self).error_message,
    {
        if i < self.prints.len() {
            self.current_print = i;
        }
    }

    /// Whether a print of this name exists.
    pub fn has_print_named(&self, name: &String) -> (r: bool)
        ensures
            r == has_print(prints_view(self.prints@), name@),
    {
        let mut i: usize = 0;
        while i < self.prints.len()
            invariant
                0 <= i <= self.prints.len(),
                forall|j: int| 0 <= j < i ==> self.prints@[j].name@ != name@,
            decreases self.prints.len() - i,
        {
            if self.prints[i].name == *name {
                assert(prints_view(self.prints@)[i as int].0 == name@);
                return true;
            }
            i = i + 1;
        }
        assert forall|j: int| 0 <= j < self.prints.len() implies #[trigger] prints_view(
            self.prints@,
        )[j].0 != name@ by {
            assert(self.prints@[j].name@ != name@);
        }
        false
    }

    /// Adds a print named as the form says, if that name is not empty and no
    /// print has it yet; the prints are then sorted again and the form is
    /// cleared. Otherwise nothing changes.
    pub fn add_print(&mut self) -> (r: bool)
        requires
            old(self).wf(),
        ensures
            final(self).wf(),
            r == (old(self).potential_print@.len() > 0 && !has_print(
                prints_view(old(self).prints@),
                old(self).potential_print@,
            )),
            r ==> prints_view(final(self).prints@) == sort_by(
                prints_view(old(self).prints@).push(
                    (old(self).potential_print@, Seq::<UnitView>::empty()),
                ),
                print_le(),
            ),
            r ==> sorted_by(prints_view(final(self).prints@), print_le()),
            distinct_names(prints_view(old(self).prints@)) ==> distinct_names(
                prints_view(final(self).prints@),
            ),
            r ==> final(self).potential_print@.len() == 0,
            r ==> final(self).current_print == old(self).current_print,
            r ==> final(self).potential_unit == old(self).potential_unit,
            r ==> final(self).error_message == old(self).error_message,
            !r ==> *final(self) == *old(self),
    {
        if self.potential_print.as_str().unicode_len() == 0 {
            return false;
        }
        if self.has_print_named(&self.potential_print) {
            return false;
        }
        let ghost s = prints_view(self.prints@);
        let name = self.potential_print.clone();
        self.potential_print = String::new();
        let p = Print::new(name);
        assert(p@.1 =~= Seq::<UnitView>::empty());
        let mut prints: Vec<Print> = Vec::new();
        std::mem::swap(&mut prints, &mut self.prints);
        prints.push(p);
        let ghost pushed = prints_view(prints@);
        assert(pushed =~= s.push(p@));
        proof {
            assert forall|i: int, j: int|
                0 <= i < pushed.len() && 0 <= j < pushed.len() && i != j implies pushed[i].0
                != pushed[j].0 by {
                if i == s.len() {
                    assert(s[j] == pushed[j]);
                } else if j == s.len() {
                    assert(s[i] == pushed[i]);
                }
            }
            if distinct_names(s) {
                assert forall|i: int| 0 <= i < pushed.len() implies distinct_unit_names(
                    #[trigger] pushed[i].1,
                ) by {
                    if i < s.len() {
                        assert(s[i] == pushed[i]);
                    }
                }
            }
            lemma_sort_prints_distinct(pushed);
        }
        self.prints = sort_prints(prints);
        true
    }

    /// Removes the print at `i`, if there is one; a selection past the end
    /// moves to the last print.
    pub fn remove_print(&mut self, i: usize)
        requires
            old(self).wf(),
        ensures
            final(self).wf(),
            distinct_names(prints_view(old(self).prints@)) ==> distinct_names(
                prints_view(final(self).prints@),
            ),
            i < old(self).prints.len() ==> prints_view(final(self).prints@) == prints_view(
                old(self).prints@,
            ).remove(i as int),
            i < old(self).prints.len() ==> final(self).current_print == if old(
                self,
            ).current_print < old(self).prints.len() - 1 {
                old(self).current_print
            } else if old(self).prints.len() > 1 {
                (old(self).prints.len() - 2) as usize
            } else {
                0
            },
            i >= old(self).prints.len() ==> *final(self) == *old(self),
            final(self).potential_print == old(self).potential_print,
            final(self).potential_unit == old(self).potential_unit,
            final(self).error_message == old(self).error_message,
    {
        if i >= self.prints.len() {
            return;
        }
        let ghost s = prints_view(self.prints@);
        self.prints.remove(i);
        let n = self.prints.len();
        if self.current_print >= n {
            self.current_print = if n > 0 {
                n - 1
            } else {
                0
            };
        }
        let ghost t = prints_view(self.prints@);
        assert(t =~= s.remove(i as int));
        assert forall|a: int, b: int|
            0 <= a < t.len() && 0 <= b < t.len() && a != b implies t[a].0 != t[b].0 by {
            let a2 = if a < i { a } else { a + 1 };
            let b2 = if b < i { b } else { b + 1 };
            assert(t[a] == s[a2] && t[b] == s[b2]);
        }
        proof {
            if distinct_names(s) {
                assert forall|a: int| 0 <= a < t.len() implies distinct_unit_names(
                    #[trigger] t[a].1,
                ) by {
                    let a2 = if a < i { a } else { a + 1 };
                    assert(t[a] == s[a2]);
                }
            }
        }
    }
    /// Takes the units out of the selected print, leaving it with none.
    fn take_units(&mut self) -> (r: Vec<Unit>)
        requires
            old(self).wf(),
            old(self).prints.len() > 0,
        ensures
            final(self).wf(),
            distinct_names(prints_view(old(self).prints@)) ==> distinct_names(
                prints_view(final(self).prints@),
            ),
            r@ == old(self).prints@[old(self).current_print as int].units@,
            prints_view(final(self).prints@) == prints_view(old(self).prints@).update(
                old(self).current_print as int,
                (prints_view(old(self).prints@)[old(self).current_print as int].0, Seq::<UnitView>::empty()),
            ),
            final(self).prints.len() == old(self).prints.len(),
            final(self).current_print == old(self).current_print,
            final(self).potential_print == old(self).potential_print,
            final(self).potential_unit == old(self).potential_unit,
            final(self).error_message == old(self).error_message,
    {
        let cur = self.current_print;
        let ghost s = prints_view(self.prints@);
        let mut p = self.prints.remove(cur);
        let mut units: Vec<Unit> = Vec::new();
        std::mem::swap(&mut units, &mut p.units);
        assert(p@.1 =~= Seq::<UnitView>::empty());
        self.prints.insert(cur, p);
        assert(prints_view(self.prints@) =~= s.update(cur as int, p@));
        proof {
            lemma_update_keeps_distinct(s, cur as int, p@);
        }
        units
    }

    /// Gives the selected print these units.
    fn put_units(&mut self, units: Vec<Unit>)
        requires
            old(self).wf(),
            old(self).prints.len() > 0,
        ensures
            final(self).wf(),
            distinct_names(prints_view(old(self).prints@)) && distinct_unit_names(units_view(units@))
                ==> distinct_names(prints_view(final(self).prints@)),
            prints_view(final(self).prints@) == prints_view(old(self).prints@).update(
                old(self).current_print as int,
                (prints_view(old(self).prints@)[old(self).current_print as int].0, units_view(units@)),
            ),
            final(self).prints.len() == old(self).prints.len(),
            final(self).current_print == old(self).current_print,
            final(self).potential_print == old(self).potential_print,
            final(self).potential_unit == old(self).potential_unit,
            final(self).error_message == old(self).error_message,
    {
        let cur = self.current_print;
        let ghost s = prints_view(self.prints@);
        let mut p = self.prints.remove(cur);
        p.units = units;
        self.prints.insert(cur, p);
        assert(prints_view(self.prints@) =~= s.update(cur as int, p@));
        proof {
            lemma_update_keeps_distinct(s, cur as int, p@);
        }
    }

    /// Adds the unit that the form holds to the selected print, if there is a
    /// selected print, the unit's name is not empty and no unit of that print
    /// has it yet; the print's units are then sorted again and the form is
    /// cleared. Otherwise nothing changes.
    pub fn add_unit(&mut self) -> (r: bool)
        requires
            old(self).wf(),
        ensures
            final(self).wf(),
            distinct_names(prints_view(old(self).prints@)) ==> distinct_names(
                prints_view(final(self).prints@),
            ),
            r == (old(self).prints.len() > 0 && old(self).potential_unit@.0.len() > 0 && !has_unit(
                old(self).prints@[old(self).current_print as int]@.1,
                old(self).potential_unit@.0,
            )),
            r ==> prints_view(final(self).prints@) == prints_view(old(self).prints@).update(
                old(self).current_print as int,
                (
                    old(self).prints@[old(self).current_print as int]@.0,
                    sort_by(
                        old(self).prints@[old(self).current_print as int]@.1.push(
                            old(self).potential_unit@,
                        ),
                        unit_le(),
                    ),
                ),
            ),
            r ==> sorted_by(final(self).prints@[final(self).current_print as int]@.1, unit_le()),
            r ==> final(self).potential_unit@ == (Seq::<char>::empty(), 0u32),
            r ==> final(self).current_print == old(self).current_print,
            r ==> final(self).potential_print == old(self).potential_print,
            r ==> final(self).error_message == old(self).error_message,
            !r ==> *final(self) == *old(self),
    {
        if self.prints.len() == 0 {
            return false;
        }
        if self.potential_unit.name.as_str().unicode_len() == 0 {
            return false;
        }
        let cur = self.current_print;
        if has_unit_named(&self.prints[cur].units, &self.potential_unit.name) {
            return false;
        }
        let ghost s = prints_view(self.prints@);
        let ghost old_units = s[cur as int].1;
        let ghost pending = self.potential_unit@;
        let u = self.potential_unit.clone();
        self.potential_unit = Unit::new();
        let mut units = self.take_units();
        units.push(u);
        let ghost pushed = units_view(units@);
        assert(pushed =~= old_units.push(pending));
        proof {
            lemma_unit_le_total();
            lemma_sort_sorted(pushed, unit_le());
            if distinct_names(s) {
                assert(distinct_unit_names(old_units));
                assert forall|i: int, j: int|
                    0 <= i < pushed.len() && 0 <= j < pushed.len() && i != j implies pushed[i].0
                    != pushed[j].0 by {
                    if i == old_units.len() {
                        assert(old_units[j] == pushed[j]);
                    } else if j == old_units.len() {
                        assert(old_units[i] == pushed[i]);
                    }
                }
                lemma_sort_units_distinct(pushed);
            }
        }
        let sorted = sort_units(units);
        self.put_units(sorted);
        assert(prints_view(self.prints@) =~= s.update(
            cur as int,
            (s[cur as int].0, sort_by(pushed, unit_le())),
        ));
        assert(self.prints@[cur as int]@ == prints_view(self.prints@)[cur as int]);
        assert(self.potential_unit@.0 =~= Seq::<char>::empty());
        true
    }

    /// Removes the unit at row `i` of the selected print, if there is one.
    pub fn remove_unit(&mut self, i: usize)
        requires
            old(self).wf(),
        ensures
            final(self).wf(),
            distinct_names(prints_view(old(self).prints@)) ==> distinct_names(
                prints_view(final(self).prints@),
            ),
            old(self).prints.len() > 0 && i < old(self).prints@[old(self).current_print as int].units.len()
                ==> prints_view(final(self).prints@) == prints_view(old(self).prints@).update(
                old(self).current_print as int,
                (
                    old(self).prints@[old(self).current_print as int]@.0,
                    old(self).prints@[old(self).current_print as int]@.1.remove(i as int),
                ),
            ),
            !(old(self).prints.len() > 0 && i < old(self).prints@[old(
                self,
            ).current_print as int].units.len()) ==> *final(self) == *old(self),
            final(self).current_print == old(self).current_print,
            final(self).potential_print == old(self).potential_print,
            final(self).potential_unit == old(self).potential_unit,
            final(self).error_message == old(self).error_message,
    {
        if self.prints.len() == 0 || i >= self.prints[self.current_print].units.len() {
            return;
        }
        let ghost s = prints_view(self.prints@);
        let ghost cur = self.current_print as int;
        let mut units = self.take_units();
        units.remove(i);
        let ghost us = s[cur].1;
        proof {
            assert(units_view(units@) =~= us.remove(i as int));
            if distinct_names(s) {
                assert(distinct_unit_names(us));
                lemma_remove_keeps_distinct(us, i as int);
            }
        }
        self.put_units(units);
        assert(prints_view(self.prints@) =~= s.update(cur, (s[cur].0, us.remove(i as int))));
    }

    /// Renames the unit at row `i` of the selected print, if there is one;
    /// otherwise nothing changes.
    pub fn rename_unit(&mut self, i: usize, name: String) -> (r: bool)
        requires
            old(self).wf(),
        ensures
            final(self).wf(),
            r == (old(self).prints.len() > 0 && i < old(self).prints@[old(
                self,
            ).current_print as int].units.len()),
            r ==> prints_view(final(self).prints@) == prints_view(old(self).prints@).update(
                old(self).current_print as int,
                (
                    old(self).prints@[old(self).current_print as int]@.0,
                    old(self).prints@[old(self).current_print as int]@.1.update(
                        i as int,
                        (name@, old(self).prints@[old(self).current_print as int]@.1[i as int].1),
                    ),
                ),
            ),
            !r ==> *final(self) == *old(self),
            final(self).current_print == old(self).current_print,
            final(self).potential_print == old(self).potential_print,
            final(self).potential_unit == old(self).potential_unit,
            final(self).error_message == old(self).error_message,
    {
        if self.prints.len() == 0 || i >= self.prints[self.current_print].units.len() {
            return false;
        }
        let ghost s = prints_view(self.prints@);
        let ghost cur = self.current_print as int;
        let ghost us = s[cur].1;
        let mut units = self.take_units();
        let quantity = units[i].quantity;
        let ghost nu = (name@, quantity);
        units.remove(i);
        units.insert(i, Unit { name, quantity });
        assert(units_view(units@) =~= us.update(i as int, nu));
        self.put_units(units);
        assert(prints_view(self.prints@) =~= s.update(cur, (s[cur].0, us.update(i as int, nu))));
        true
    }

    /// Sets the quantity of the unit at row `i` of the selected print to the
    /// number that `text` writes; text that writes none, or a row that does not
    /// exist, changes nothing.
    pub fn set_unit_quantity(&mut self, i: usize, text: &str) -> (r: bool)
        requires
            old(self).wf(),
        ensures
            final(self).wf(),
            distinct_names(prints_view(old(self).prints@)) ==> distinct_names(
                prints_view(final(self).prints@),
            ),
            r == (old(self).prints.len() > 0 && i < old(self).prints@[old(
                self,
            ).current_print as int].units.len() && decimal_of(text@) is Some),
            r ==> prints_view(final(self).prints@) == prints_view(old(self).prints@).update(
                old(self).current_print as int,
                (
                    old(self).prints@[old(self).current_print as int]@.0,
                    old(self).prints@[old(self).current_print as int]@.1.update(
                        i as int,
                        (
                            old(self).prints@[old(self).current_print as int]@.1[i as int].0,
                            decimal_of(text@).unwrap(),
                        ),
                    ),
                ),
            ),
            !r ==> *final(self) == *old(self),
            final(self).current_print == old(self).current_print,
            final(self).potential_print == old(self).potential_print,
            final(self).potential_unit == old(self).potential_unit,
            final(self).error_message == old(self).error_message,
    {
        if self.prints.len() == 0 || i >= self.prints[self.current_print].units.len() {
            return false;
        }
        let quantity = match parse_quantity(text) {
            Some(q) => q,
            None => {
                return false;
            },
        };
        let ghost s = prints_view(self.prints@);
        let ghost cur = self.current_print as int;
        let ghost us = s[cur].1;
        let mut units = self.take_units();
        let u = units.remove(i);
        let ghost nu = (u.name@, quantity);
        units.insert(i, Unit { name: u.name, quantity });
        proof {
            assert(units_view(units@) =~= us.update(i as int, nu));
            if distinct_names(s) {
                assert(distinct_unit_names(us));
                assert forall|a: int, b: int|
                    0 <= a < us.len() && 0 <= b < us.len() && a != b implies us.update(
                        i as int,
                        nu,
                    )[a].0 != us.update(i as int, nu)[b].0 by {
                    assert(us[a].0 != us[b].0);
                }
            }
        }
        self.put_units(units);
        assert(prints_view(self.prints@) =~= s.update(cur, (s[cur].0, us.update(i as int, nu))));
        true
    }

    /// Sets the quantity in the form for a new unit to the number that `text`
    /// writes; text that writes none changes nothing.
    pub fn set_pending_quantity(&mut self, text: &str) -> (r: bool)
        ensures
            r == decimal_of(text@) is Some,
            r ==> final(self).potential_unit@ == (
                old(self).potential_unit@.0,
                decimal_of(text@).unwrap(),
            ),
            !r ==> *final(self) == *old(self),
            final(self).prints@ == old(self).prints@,
            final(self).current_print == old(self).current_print,
            final(self).potential_print == old(self).potential_print,
            final(self).error_message == old(self).error_message,
    {
        match parse_quantity(text) {
            Some(q) => {
                self.potential_unit.quantity = q;
                true
            },
            None => false,
        }
    }
}

/// Whether a unit has this name.
fn has_unit_named(units: &Vec<Unit>, name: &String) -> (r: bool)
    ensures
        r == has_unit(units_view(units@), name@),
{
    let mut i: usize = 0;
    while i < units.len()
        invariant
            0 <= i <= units.len(),
            forall|j: int| 0 <= j < i ==> units@[j].name@ != name@,
        decreases units.len() - i,
    {
        if units[i].name == *name {
            assert(units_view(units@)[i as int].0 == name@);
            return true;
        }
        i = i + 1;
    }
    assert forall|j: int| 0 <= j < units.len() implies #[trigger] units_view(units@)[j].0
        != name@ by {
        assert(units@[j].name@ != name@);
    }
    false
}

/// Giving a print new units under its own name keeps the print names
/// distinct, and all names distinct where the new units' names are.
proof fn lemma_update_keeps_distinct(s: Seq<PrintView>, k: int, p: PrintView)
    requires
        distinct_print_names(s),
        0 <= k < s.len(),
        p.0 == s[k].0,
    ensures
        distinct_print_names(s.update(k, p)),
        distinct_names(s) && distinct_unit_names(p.1) ==> distinct_names(s.update(k, p)),
{
    let t = s.update(k, p);
    assert forall|i: int, j: int|
        0 <= i < t.len() && 0 <= j < t.len() && i != j implies t[i].0 != t[j].0 by {
        assert(s[i].0 != s[j].0);
    }
    if distinct_names(s) && distinct_unit_names(p.1) {
        assert forall|i: int| 0 <= i < t.len() implies distinct_unit_names(#[trigger] t[i].1) by {
            if i != k {
                assert(t[i] == s[i]);
            }
        }
    }
}

/// Removing a unit keeps the names distinct.
proof fn lemma_remove_keeps_distinct(s: Seq<UnitView>, k: int)
    requires
        distinct_unit_names(s),
        0 <= k < s.len(),
    ensures
        distinct_unit_names(s.remove(k)),
{
    let t = s.remove(k);
    assert forall|a: int, b: int|
        0 <= a < t.len() && 0 <= b < t.len() && a != b implies t[a].0 != t[b].0 by {
        let a2 = if a < k { a } else { a + 1 };
        let b2 = if b < k { b } else { b + 1 };
        assert(t[a] == s[a2] && t[b] == s[b2]);
    }
}

} // verus!
