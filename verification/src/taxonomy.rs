//! The taxonomy registry: static catalogs of colors, wall sections and
//! difficulty grades. Each entry carries a display group, a label and an
//! integer sort rank. Catalogs are ordered, key-unique maps held as vectors
//! of key/entry pairs; a route may reference a key that is absent from the
//! catalog, in which case its rank degrades to 0 and its entry to absent.

use vstd::prelude::*;

verus! {

/// The mathematical content of one catalog entry.
pub ghost struct TaxView {
    pub group: Seq<char>,
    pub label: Seq<char>,
    pub sort: i32,
}

/// A route color.
pub struct Color {
    pub group: String,
    pub label: String,
    pub sort: i32,
}

/// A wall section.
pub struct Section {
    pub group: String,
    pub label: String,
    pub sort: i32,
}

/// A difficulty grade.
pub struct Grade {
    pub group: String,
    pub label: String,
    pub sort: i32,
}

impl View for Color {
    type V = TaxView;

    open spec fn view(&self) -> TaxView {
        TaxView { group: self.group@, label: self.label@, sort: self.sort }
    }
}

impl View for Section {
    type V = TaxView;

    open spec fn view(&self) -> TaxView {
        TaxView { group: self.group@, label: self.label@, sort: self.sort }
    }
}

impl View for Grade {
    type V = TaxView;

    open spec fn view(&self) -> TaxView {
        TaxView { group: self.group@, label: self.label@, sort: self.sort }
    }
}

/// One catalog as a sequence of key/entry pairs, in display order.
pub type CatView = Seq<(Seq<char>, TaxView)>;

/// The view of an executable catalog vector.
pub open spec fn cat_view<T: View<V = TaxView>>(v: Seq<(String, T)>) -> CatView {
    Seq::new(v.len(), |i: int| (v[i].0@, v[i].1@))
}

/// The entry for `key` in `cat` from position `i` on: the first pair whose
/// key matches, absent if none does.
pub open spec fn spec_lookup_from(cat: CatView, key: Seq<char>, i: int) -> Option<TaxView>
    decreases cat.len() - i,
{
    if i < 0 || i >= cat.len() {
        None
    } else if cat[i].0 == key {
        Some(cat[i].1)
    } else {
        spec_lookup_from(cat, key, i + 1)
    }
}

/// The entry for `key` in `cat`, absent if no key matches.
pub open spec fn spec_lookup(cat: CatView, key: Seq<char>) -> Option<TaxView> {
    spec_lookup_from(cat, key, 0)
}

/// The sort rank for `key`: the matched entry's rank, 0 when absent.
pub open spec fn spec_rank(cat: CatView, key: Seq<char>) -> int {
    match spec_lookup(cat, key) {
        Some(e) => e.sort as int,
        None => 0,
    }
}

/// The three catalogs a snapshot carries.
pub struct Settings {
    pub colors: Vec<(String, Color)>,
    pub sections: Vec<(String, Section)>,
    pub grades: Vec<(String, Grade)>,
}

/// The mathematical content of `Settings`.
pub ghost struct SettingsView {
    pub colors: CatView,
    pub sections: CatView,
    pub grades: CatView,
}

impl View for Settings {
    type V = SettingsView;

    open spec fn view(&self) -> SettingsView {
        SettingsView {
            colors: cat_view(self.colors@),
            sections: cat_view(self.sections@),
            grades: cat_view(self.grades@),
        }
    }
}

/// Looks up `key` among the colors; absent keys degrade to `None`.
pub fn color_lookup<'a>(cat: &'a Vec<(String, Color)>, key: &String) -> (r: Option<&'a Color>)
    ensures
        match r {
            Some(e) => spec_lookup(cat_view(cat@), key@) == Some(e@),
            None => spec_lookup(cat_view(cat@), key@) is None,
        },
{
    let mut i: usize = 0;
    while i < cat.len()
        invariant
            i <= cat.len(),
            spec_lookup(cat_view(cat@), key@) == spec_lookup_from(cat_view(cat@), key@, i as int),
        decreases cat.len() - i,
    {
        let p = &cat[i];
        if p.0 == *key {
            return Some(&p.1);
        }
        i += 1;
    }
    None
}

/// Looks up `key` among the sections.
pub fn section_lookup<'a>(cat: &'a Vec<(String, Section)>, key: &String) -> (r: Option<
    &'a Section,
>)
    ensures
        match r {
            Some(e) => spec_lookup(cat_view(cat@), key@) == Some(e@),
            None => spec_lookup(cat_view(cat@), key@) is None,
        },
{
    let mut i: usize = 0;
    while i < cat.len()
        invariant
            i <= cat.len(),
            spec_lookup(cat_view(cat@), key@) == spec_lookup_from(cat_view(cat@), key@, i as int),
        decreases cat.len() - i,
    {
        let p = &cat[i];
        if p.0 == *key {
            return Some(&p.1);
        }
        i += 1;
    }
    None
}

/// Looks up `key` among the grades.
pub fn grade_lookup<'a>(cat: &'a Vec<(String, Grade)>, key: &String) -> (r: Option<&'a Grade>)
    ensures
        match r {
            Some(e) => spec_lookup(cat_view(cat@), key@) == Some(e@),
            None => spec_lookup(cat_view(cat@), key@) is None,
        },
{
    let mut i: usize = 0;
    while i < cat.len()
        invariant
            i <= cat.len(),
            spec_lookup(cat_view(cat@), key@) == spec_lookup_from(cat_view(cat@), key@, i as int),
        decreases cat.len() - i,
    {
        let p = &cat[i];
        if p.0 == *key {
            return Some(&p.1);
        }
        i += 1;
    }
    None
}

/// The catalog of colors synthesized when no snapshot exists yet.
pub open spec fn spec_default_colors() -> CatView {
    seq![
        ("red"@, TaxView { group: "A"@, label: "red"@, sort: 1 }),
        ("orange"@, TaxView { group: "A"@, label: "orange"@, sort: 2 }),
        ("yellow"@, TaxView { group: "A"@, label: "yellow"@, sort: 3 }),
        ("green"@, TaxView { group: "A"@, label: "green"@, sort: 4 }),
        ("blue"@, TaxView { group: "A"@, label: "blue"@, sort: 5 }),
        ("purple"@, TaxView { group: "A"@, label: "purple"@, sort: 6 }),
        ("pink"@, TaxView { group: "A"@, label: "pink"@, sort: 7 }),
        ("brown"@, TaxView { group: "A"@, label: "brown"@, sort: 8 }),
        ("white"@, TaxView { group: "A"@, label: "white"@, sort: 9 }),
        ("black"@, TaxView { group: "A"@, label: "black"@, sort: 10 }),
    ]
}

/// The catalog of sections synthesized when no snapshot exists yet.
pub open spec fn spec_default_sections() -> CatView {
    seq![
        ("AB1"@, TaxView { group: "A"@, label: "AB1"@, sort: 1 }),
        ("AB2"@, TaxView { group: "A"@, label: "MAP"@, sort: 2 }),
        ("AB3"@, TaxView { group: "A"@, label: "AB3"@, sort: 3 }),
        ("AB4"@, TaxView { group: "A"@, label: "AB4"@, sort: 4 }),
        ("AB5"@, TaxView { group: "A"@, label: "AB5"@, sort: 5 }),
        ("AB6"@, TaxView { group: "A"@, label: "AB6"@, sort: 6 }),
        ("AB7"@, TaxView { group: "A"@, label: "AB7"@, sort: 7 }),
        ("AB8"@, TaxView { group: "A"@, label: "AB8"@, sort: 8 }),
        ("SLB"@, TaxView { group: "B"@, label: "SLB"@, sort: 9 }),
        ("LWV"@, TaxView { group: "B"@, label: "LWV"@, sort: 10 }),
        ("CAN"@, TaxView { group: "B"@, label: "CAN"@, sort: 11 }),
        ("RWV"@, TaxView { group: "B"@, label: "RWV"@, sort: 12 }),
        ("ROF"@, TaxView { group: "B"@, label: "ROF"@, sort: 13 }),
        ("GLB"@, TaxView { group: "B"@, label: "GLB"@, sort: 14 }),
        ("VRT"@, TaxView { group: "B"@, label: "VRT"@, sort: 15 }),
    ]
}

/// The catalog of grades synthesized when no snapshot exists yet.
pub open spec fn spec_default_grades() -> CatView {
    seq![
        ("5"@, TaxView { group: "A"@, label: "5"@, sort: 1 }),
        ("6"@, TaxView { group: "A"@, label: "6"@, sort: 2 }),
        ("7"@, TaxView { group: "A"@, label: "7"@, sort: 3 }),
        ("8"@, TaxView { group: "A"@, label: "8"@, sort: 4 }),
        ("9"@, TaxView { group: "A"@, label: "9"@, sort: 5 }),
        ("10-"@, TaxView { group: "A"@, label: "10-"@, sort: 6 }),
        ("10"@, TaxView { group: "A"@, label: "10"@, sort: 7 }),
        ("10+"@, TaxView { group: "A"@, label: "10+"@, sort: 8 }),
        ("11-"@, TaxView { group: "A"@, label: "11-"@, sort: 9 }),
        ("11"@, TaxView { group: "A"@, label: "11"@, sort: 10 }),
        ("11+"@, TaxView { group: "A"@, label: "11+"@, sort: 11 }),
        ("12-"@, TaxView { group: "A"@, label: "12-"@, sort: 12 }),
        ("12"@, TaxView { group: "A"@, label: "12"@, sort: 13 }),
        ("12+"@, TaxView { group: "A"@, label: "12+"@, sort: 14 }),
        ("V0-"@, TaxView { group: "B"@, label: "V0-"@, sort: 15 }),
        ("V0"@, TaxView { group: "B"@, label: "V0"@, sort: 16 }),
        ("V0+"@, TaxView { group: "B"@, label: "V0+"@, sort: 17 }),
        ("V1"@, TaxView { group: "B"@, label: "V1"@, sort: 18 }),
        ("V2"@, TaxView { group: "B"@, label: "V2"@, sort: 19 }),
        ("V3"@, TaxView { group: "B"@, label: "V3"@, sort: 20 }),
        ("V4"@, TaxView { group: "B"@, label: "V4"@, sort: 21 }),
        ("V5"@, TaxView { group: "B"@, label: "V5"@, sort: 22 }),
        ("V6"@, TaxView { group: "B"@, label: "V6"@, sort: 23 }),
        ("V7"@, TaxView { group: "B"@, label: "V7"@, sort: 24 }),
    ]
}

impl Color {
    /// The default color catalog.
    pub fn defaults() -> (r: Vec<(String, Color)>)
        ensures
            cat_view(r@) == spec_default_colors(),
    {
        let mut v: Vec<(String, Color)> = Vec::new();
        v.push(("red".to_owned(), Color { group: "A".to_owned(), label: "red".to_owned(), sort: 1 }));
        v.push(("orange".to_owned(), Color { group: "A".to_owned(), label: "orange".to_owned(), sort: 2 }));
        v.push(("yellow".to_owned(), Color { group: "A".to_owned(), label: "yellow".to_owned(), sort: 3 }));
        v.push(("green".to_owned(), Color { group: "A".to_owned(), label: "green".to_owned(), sort: 4 }));
        v.push(("blue".to_owned(), Color { group: "A".to_owned(), label: "blue".to_owned(), sort: 5 }));
        v.push(("purple".to_owned(), Color { group: "A".to_owned(), label: "purple".to_owned(), sort: 6 }));
        v.push(("pink".to_owned(), Color { group: "A".to_owned(), label: "pink".to_owned(), sort: 7 }));
        v.push(("brown".to_owned(), Color { group: "A".to_owned(), label: "brown".to_owned(), sort: 8 }));
        v.push(("white".to_owned(), Color { group: "A".to_owned(), label: "white".to_owned(), sort: 9 }));
        v.push(("black".to_owned(), Color { group: "A".to_owned(), label: "black".to_owned(), sort: 10 }));
        assert(cat_view(v@) =~= spec_default_colors());
        v
    }
}

impl Section {
    /// The default section catalog.
    pub fn defaults() -> (r: Vec<(String, Section)>)
        ensures
            cat_view(r@) == spec_default_sections(),
    {
        let mut v: Vec<(String, Section)> = Vec::new();
        v.push(("AB1".to_owned(), Section { group: "A".to_owned(), label: "AB1".to_owned(), sort: 1 }));
        v.push(("AB2".to_owned(), Section { group: "A".to_owned(), label: "MAP".to_owned(), sort: 2 }));
        v.push(("AB3".to_owned(), Section { group: "A".to_owned(), label: "AB3".to_owned(), sort: 3 }));
        v.push(("AB4".to_owned(), Section { group: "A".to_owned(), label: "AB4".to_owned(), sort: 4 }));
        v.push(("AB5".to_owned(), Section { group: "A".to_owned(), label: "AB5".to_owned(), sort: 5 }));
        v.push(("AB6".to_owned(), Section { group: "A".to_owned(), label: "AB6".to_owned(), sort: 6 }));
        v.push(("AB7".to_owned(), Section { group: "A".to_owned(), label: "AB7".to_owned(), sort: 7 }));
        v.push(("AB8".to_owned(), Section { group: "A".to_owned(), label: "AB8".to_owned(), sort: 8 }));
        v.push(("SLB".to_owned(), Section { group: "B".to_owned(), label: "SLB".to_owned(), sort: 9 }));
        v.push(("LWV".to_owned(), Section { group: "B".to_owned(), label: "LWV".to_owned(), sort: 10 }));
        v.push(("CAN".to_owned(), Section { group: "B".to_owned(), label: "CAN".to_owned(), sort: 11 }));
        v.push(("RWV".to_owned(), Section { group: "B".to_owned(), label: "RWV".to_owned(), sort: 12 }));
        v.push(("ROF".to_owned(), Section { group: "B".to_owned(), label: "ROF".to_owned(), sort: 13 }));
        v.push(("GLB".to_owned(), Section { group: "B".to_owned(), label: "GLB".to_owned(), sort: 14 }));
        v.push(("VRT".to_owned(), Section { group: "B".to_owned(), label: "VRT".to_owned(), sort: 15 }));
        assert(cat_view(v@) =~= spec_default_sections());
        v
    }
}

impl Grade {
    /// The default grade catalog.
    pub fn defaults() -> (r: Vec<(String, Grade)>)
        ensures
            cat_view(r@) == spec_default_grades(),
    {
        let mut v: Vec<(String, Grade)> = Vec::new();
        v.push(("5".to_owned(), Grade { group: "A".to_owned(), label: "5".to_owned(), sort: 1 }));
        v.push(("6".to_owned(), Grade { group: "A".to_owned(), label: "6".to_owned(), sort: 2 }));
        v.push(("7".to_owned(), Grade { group: "A".to_owned(), label: "7".to_owned(), sort: 3 }));
        v.push(("8".to_owned(), Grade { group: "A".to_owned(), label: "8".to_owned(), sort: 4 }));
        v.push(("9".to_owned(), Grade { group: "A".to_owned(), label: "9".to_owned(), sort: 5 }));
        v.push(("10-".to_owned(), Grade { group: "A".to_owned(), label: "10-".to_owned(), sort: 6 }));
        v.push(("10".to_owned(), Grade { group: "A".to_owned(), label: "10".to_owned(), sort: 7 }));
        v.push(("10+".to_owned(), Grade { group: "A".to_owned(), label: "10+".to_owned(), sort: 8 }));
        v.push(("11-".to_owned(), Grade { group: "A".to_owned(), label: "11-".to_owned(), sort: 9 }));
        v.push(("11".to_owned(), Grade { group: "A".to_owned(), label: "11".to_owned(), sort: 10 }));
        v.push(("11+".to_owned(), Grade { group: "A".to_owned(), label: "11+".to_owned(), sort: 11 }));
        v.push(("12-".to_owned(), Grade { group: "A".to_owned(), label: "12-".to_owned(), sort: 12 }));
        v.push(("12".to_owned(), Grade { group: "A".to_owned(), label: "12".to_owned(), sort: 13 }));
        v.push(("12+".to_owned(), Grade { group: "A".to_owned(), label: "12+".to_owned(), sort: 14 }));
        v.push(("V0-".to_owned(), Grade { group: "B".to_owned(), label: "V0-".to_owned(), sort: 15 }));
        v.push(("V0".to_owned(), Grade { group: "B".to_owned(), label: "V0".to_owned(), sort: 16 }));
        v.push(("V0+".to_owned(), Grade { group: "B".to_owned(), label: "V0+".to_owned(), sort: 17 }));
        v.push(("V1".to_owned(), Grade { group: "B".to_owned(), label: "V1".to_owned(), sort: 18 }));
        v.push(("V2".to_owned(), Grade { group: "B".to_owned(), label: "V2".to_owned(), sort: 19 }));
        v.push(("V3".to_owned(), Grade { group: "B".to_owned(), label: "V3".to_owned(), sort: 20 }));
        v.push(("V4".to_owned(), Grade { group: "B".to_owned(), label: "V4".to_owned(), sort: 21 }));
        v.push(("V5".to_owned(), Grade { group: "B".to_owned(), label: "V5".to_owned(), sort: 22 }));
        v.push(("V6".to_owned(), Grade { group: "B".to_owned(), label: "V6".to_owned(), sort: 23 }));
        v.push(("V7".to_owned(), Grade { group: "B".to_owned(), label: "V7".to_owned(), sort: 24 }));
        assert(cat_view(v@) =~= spec_default_grades());
        v
    }
}

/// The settings synthesized at first use, when no snapshot exists.
pub open spec fn spec_default_settings() -> SettingsView {
    SettingsView {
        colors: spec_default_colors(),
        sections: spec_default_sections(),
        grades: spec_default_grades(),
    }
}

impl Default for Settings {
    /// The default catalogs, as synthesized at first use.
    fn default() -> (s: Self)
        ensures
            s@ == spec_default_settings(),
    {
        Settings {
            colors: Color::defaults(),
            sections: Section::defaults(),
            grades: Grade::defaults(),
        }
    }
}

/// The color rank for `key`, 0 when the key is absent.
pub fn color_rank(cat: &Vec<(String, Color)>, key: &String) -> (r: i32)
    ensures
        r as int == spec_rank(cat_view(cat@), key@),
{
    match color_lookup(cat, key) {
        Some(e) => e.sort,
        None => 0,
    }
}

/// The section rank for `key`, 0 when the key is absent.
pub fn section_rank(cat: &Vec<(String, Section)>, key: &String) -> (r: i32)
    ensures
        r as int == spec_rank(cat_view(cat@), key@),
{
    match section_lookup(cat, key) {
        Some(e) => e.sort,
        None => 0,
    }
}

/// The grade rank for `key`, 0 when the key is absent.
pub fn grade_rank(cat: &Vec<(String, Grade)>, key: &String) -> (r: i32)
    ensures
        r as int == spec_rank(cat_view(cat@), key@),
{
    match grade_lookup(cat, key) {
        Some(e) => e.sort,
        None => 0,
    }
}

} // verus!
