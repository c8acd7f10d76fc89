use vstd::prelude::*;

use crate::table::{Index, SheetModel, Spreadsheet};

verus! {

/// The chip's name.
pub struct Name(pub String);

/// The name of the C++ class that drives the chip.
pub struct Classname(pub String);

/// The address of the chip's source repository.
pub struct GithubRepo(pub String);

/// The header file that declares the chip's driver.
pub struct HeaderSource(pub String);

/// A short description of the chip.
pub struct Description(pub String);

/// The address of the chip's product page.
pub struct ProductPage(pub String);

/// One chip of the reference, with its descriptive fields.
pub struct XChip {
    pub name: Name,
    pub classname: Classname,
    pub github_repository: GithubRepo,
    pub header_src: HeaderSource,
    pub description: Description,
    pub product_page: ProductPage,
}

/// All chips of the reference.
pub struct XChipRegistry {
    pub xchips: Vec<XChip>,
}

/// A two-column grid holding `pairs` in order, one pair per row: the first
/// text in column 0, the second in column 1.
pub open spec fn two_column_model(pairs: Seq<(Seq<char>, Seq<char>)>) -> SheetModel {
    SheetModel {
        max_row: if pairs.len() == 0 { 0 } else { (pairs.len() - 1) as usize },
        max_col: if pairs.len() == 0 { 0 } else { 1 },
        cells: Map::new(
            |k: (usize, usize)| k.0 < pairs.len() && k.1 < 2,
            |k: (usize, usize)| if k.1 == 0 { pairs[k.0 as int].0 } else { pairs[k.0 as int].1 },
        ),
    }
}

/// Setting the two cells of the next row extends a two-column grid by one pair.
proof fn lemma_two_column_step(pairs: Seq<(Seq<char>, Seq<char>)>, i: int)
    requires
        0 <= i < pairs.len(),
        pairs.len() <= usize::MAX,
    ensures
        two_column_model(pairs.take(i)).set((i as usize, 0), pairs[i].0).set((i as usize, 1), pairs[i].1)
            == two_column_model(pairs.take(i + 1)),
{
    let grown = two_column_model(pairs.take(i)).set((i as usize, 0), pairs[i].0).set((i as usize, 1), pairs[i].1);
    let want = two_column_model(pairs.take(i + 1));
    assert(grown.cells =~= want.cells);
}

impl XChip {
    /// The chip's fields as (label, value) pairs, in display order.
    pub open spec fn pairs(&self) -> Seq<(Seq<char>, Seq<char>)> {
        seq![
            ("Name"@, self.name.0@),
            ("Description"@, self.description.0@),
            ("GitHub Repo"@, self.github_repository.0@),
            ("Header Source"@, self.header_src.0@),
            ("Product Page"@, self.product_page.0@),
            ("C++ Class Name"@, self.classname.0@),
        ]
    }

    /// The chip's fields as (label, value) pairs, in display order.
    pub fn get_pairs(&self) -> (r: [(&str, &str); 6])
        ensures
            forall|i: int| 0 <= i < 6 ==> (#[trigger] r@[i].0@, r@[i].1@) == self.pairs()[i],
    {
        [
            ("Name", self.name.0.as_str()),
            ("Description", self.description.0.as_str()),
            ("GitHub Repo", self.github_repository.0.as_str()),
            ("Header Source", self.header_src.0.as_str()),
            ("Product Page", self.product_page.0.as_str()),
            ("C++ Class Name", self.classname.0.as_str()),
        ]
    }

    /// A two-column grid of the chip's fields: labels in column 0, values in column 1.
    pub fn into_spreadsheet(&self) -> (r: Spreadsheet)
        ensures
            r.wf(),
            r@ == two_column_model(self.pairs()),
    {
        let pairs = self.get_pairs();
        let mut sheet = Spreadsheet::new();
        proof {
            assert(sheet@.cells =~= two_column_model(self.pairs().take(0)).cells);
        }
        for i in 0..6
            invariant
                sheet.wf(),
                forall|j: int| 0 <= j < 6 ==> (#[trigger] pairs@[j].0@, pairs@[j].1@) == self.pairs()[j],
                sheet@ == two_column_model(self.pairs().take(i as int)),
        {
            let (key, value) = pairs[i];
            assert((pairs@[i as int].0@, pairs@[i as int].1@) == self.pairs()[i as int]);
            sheet.set(Index(i, 0), key.to_owned());
            sheet.set(Index(i, 1), value.to_owned());
            proof {
                lemma_two_column_step(self.pairs(), i as int);
            }
        }
        proof {
            assert(self.pairs().take(6) =~= self.pairs());
        }
        sheet
    }
}

/// The rows of a chip listing: a header, then each chip's name and description.
pub open spec fn listing_pairs(chips: Seq<XChip>) -> Seq<(Seq<char>, Seq<char>)> {
    seq![("Chip Name"@, "Description"@)] + chips.map_values(|c: XChip| (c.name.0@, c.description.0@))
}

/// A two-column grid listing the chips: a header row, then one row per chip
/// with its name and its description.
pub fn list_chips(chips: &[XChip]) -> (r: Spreadsheet)
    requires
        chips@.len() < usize::MAX,
    ensures
        r.wf(),
        r@ == two_column_model(listing_pairs(chips@)),
{
    let ghost pairs = listing_pairs(chips@);
    let mut sheet = Spreadsheet::new();
    proof {
        assert(sheet@.cells =~= two_column_model(pairs.take(0)).cells);
    }
    sheet.set(Index(0, 0), "Chip Name".to_owned());
    sheet.set(Index(0, 1), "Description".to_owned());
    proof {
        lemma_two_column_step(pairs, 0);
    }
    for i in 0..chips.len()
        invariant
            sheet.wf(),
            pairs == listing_pairs(chips@),
            chips@.len() < usize::MAX,
            sheet@ == two_column_model(pairs.take(i + 1)),
    {
        let chip = &chips[i];
        assert(pairs[i + 1] == (chip.name.0@, chip.description.0@));
        sheet.set(Index(i + 1, 0), chip.name.0.clone());
        sheet.set(Index(i + 1, 1), chip.description.0.clone());
        proof {
            lemma_two_column_step(pairs, i + 1);
        }
    }
    proof {
        assert(pairs.take(chips@.len() as int + 1) =~= pairs);
    }
    sheet
}

/// `b` with an ASCII capital letter turned into its small letter.
pub open spec fn ascii_lower(b: u8) -> u8 {
    if 65 <= b <= 90 {
        (b + 32) as u8
    } else {
        b
    }
}

/// The two byte strings are equal once ASCII letters are lowercased.
pub open spec fn same_ignoring_ascii_case(a: Seq<u8>, b: Seq<u8>) -> bool {
    a.len() == b.len() && forall|i: int| 0 <= i < a.len() ==> ascii_lower(#[trigger] a[i]) == ascii_lower(b[i])
}

/// The chip's name matches `name` when ASCII letters are compared without case.
pub open spec fn name_matches(chip: XChip, name: Seq<char>) -> bool {
    same_ignoring_ascii_case(vstd::utf8::encode_utf8(chip.name.0@), vstd::utf8::encode_utf8(name))
}

fn lower_byte(b: u8) -> (r: u8)
    ensures
        r == ascii_lower(b),
{
    if 65 <= b && b <= 90 {
        b + 32
    } else {
        b
    }
}

fn eq_ignoring_ascii_case(a: &[u8], b: &[u8]) -> (r: bool)
    ensures
        r == same_ignoring_ascii_case(a@, b@),
{
    if a.len() != b.len() {
        return false;
    }
    for i in 0..a.len()
        invariant
            a@.len() == b@.len(),
            forall|j: int| 0 <= j < i ==> ascii_lower(#[trigger] a@[j]) == ascii_lower(b@[j]),
    {
        if lower_byte(a[i]) != lower_byte(b[i]) {
            return false;
        }
    }
    true
}

/// The position of the first chip whose name equals `name` when ASCII letters
/// are compared without case; `None` when no chip's name does.
pub fn find_chip(chips: &[XChip], name: &str) -> (r: Option<usize>)
    ensures
        r matches Some(i) ==> i < chips@.len() && name_matches(chips@[i as int], name@)
            && forall|j: int| 0 <= j < i ==> !name_matches(#[trigger] chips@[j], name@),
        r is None ==> forall|j: int| 0 <= j < chips@.len() ==> !name_matches(#[trigger] chips@[j], name@),
{
    let wanted = name.as_bytes();
    for i in 0..chips.len()
        invariant
            wanted@ == vstd::utf8::encode_utf8(name@),
            forall|j: int| 0 <= j < i ==> !name_matches(#[trigger] chips@[j], name@),
    {
        let own = chips[i].name.0.as_str().as_bytes();
        if eq_ignoring_ascii_case(own, wanted) {
            return Some(i);
        }
    }
    None
}

} // verus!
