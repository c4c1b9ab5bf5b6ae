//! The record model: items, storage locations, sizes, and the parsing and
//! formatting rules for each.

use vstd::prelude::*;

use crate::text::{
    chars_le, dec_int, decimal_val, fmt_i64, is_decimal_int, parse_i64, push_char,
};

verus! {

/// A size code for an item: small, medium, large, or extra large.
#[derive(Copy, Clone, Debug, PartialEq, Eq, Structural)]
pub enum ItemSize {
    S,
    M,
    L,
    X,
}

/// The size a character sequence names, read case-insensitively, or `None`.
pub open spec fn spec_parse_size(s: Seq<char>) -> Option<ItemSize> {
    if s == seq!['S'] || s == seq!['s'] {
        Some(ItemSize::S)
    } else if s == seq!['M'] || s == seq!['m'] {
        Some(ItemSize::M)
    } else if s == seq!['L'] || s == seq!['l'] {
        Some(ItemSize::L)
    } else if s == seq!['X'] || s == seq!['x'] {
        Some(ItemSize::X)
    } else {
        None
    }
}

/// The canonical one-letter rendering of a size.
pub open spec fn spec_size_str(z: ItemSize) -> Seq<char> {
    match z {
        ItemSize::S => seq!['S'],
        ItemSize::M => seq!['M'],
        ItemSize::L => seq!['L'],
        ItemSize::X => seq!['X'],
    }
}

impl ItemSize {
    /// Parse a size code: a single letter `s`, `m`, `l` or `x` in either case.
    pub fn parse_size(s: &str) -> (r: Result<ItemSize, String>)
        ensures
            match r {
                Ok(z) => spec_parse_size(s@) == Some(z),
                Err(_) => spec_parse_size(s@) is None,
            },
    {
        if s.unicode_len() != 1 {
            assert(spec_parse_size(s@) is None) by {
                assert(forall|c: char| (#[trigger] seq![c]).len() == 1);
            };
            return Err(String::from_str("attempt to convert size from not \"[SMLX]\""));
        }
        let c = s.get_char(0);
        assert(s@ =~= seq![c]);
        match c {
            'S' | 's' => Ok(ItemSize::S),
            'M' | 'm' => Ok(ItemSize::M),
            'L' | 'l' => Ok(ItemSize::L),
            'X' | 'x' => Ok(ItemSize::X),
            _ => {
                assert(spec_parse_size(s@) is None);
                Err(String::from_str("attempt to convert size from not \"[SMLX]\""))
            },
        }
    }

    /// The canonical one-letter rendering of this size.
    pub fn to_string(&self) -> (r: String)
        ensures
            r@ == spec_size_str(*self),
    {
        proof {
            reveal_strlit("S");
            reveal_strlit("M");
            reveal_strlit("L");
            reveal_strlit("X");
        }
        let r = match self {
            ItemSize::S => String::from_str("S"),
            ItemSize::M => String::from_str("M"),
            ItemSize::L => String::from_str("L"),
            ItemSize::X => String::from_str("X"),
        };
        assert(r@ =~= spec_size_str(*self));
        r
    }

    /// How much of a bin an item of this size occupies, for load balancing.
    pub fn fullness(&self) -> (r: i64)
        ensures
            r == match *self {
                ItemSize::S => 2int,
                ItemSize::M => 3int,
                ItemSize::L => 4int,
                ItemSize::X => 6int,
            },
    {
        match self {
            ItemSize::S => 2,
            ItemSize::M => 3,
            ItemSize::L => 4,
            ItemSize::X => 6,
        }
    }
}

impl core::str::FromStr for ItemSize {
    type Err = String;

    fn from_str(s: &str) -> Result<Self, String> {
        ItemSize::parse_size(s)
    }
}

/// A labeled storage location with a number of bins.
#[derive(Clone, Debug, PartialEq, Eq)]
pub struct Location {
    pub object_id: Option<i64>,
    pub name: String,
    pub num_bins: i64,
}

/// The mathematical content of a location.
pub struct LocationView {
    pub object_id: Option<i64>,
    pub name: Seq<char>,
    pub num_bins: i64,
}

impl View for Location {
    type V = LocationView;

    open spec fn view(&self) -> LocationView {
        LocationView { object_id: self.object_id, name: self.name@, num_bins: self.num_bins }
    }
}

/// A single inventory record: a named item of some size, stored in one bin
/// of one location.
#[derive(Clone, Debug, PartialEq, Eq)]
pub struct Item {
    pub object_id: Option<i64>,
    pub name: String,
    pub location: Location,
    pub bin_no: i64,
    pub size: String,
}

/// The mathematical content of a record.
pub struct ItemView {
    pub object_id: Option<i64>,
    pub name: Seq<char>,
    pub location: LocationView,
    pub bin_no: i64,
    pub size: Seq<char>,
}

impl View for Item {
    type V = ItemView;

    open spec fn view(&self) -> ItemView {
        ItemView {
            object_id: self.object_id,
            name: self.name@,
            location: self.location@,
            bin_no: self.bin_no,
            size: self.size@,
        }
    }
}

/// An item rendered for display: its location label, optional bin number,
/// name and size.
#[derive(Clone, Debug, PartialEq, Eq, PartialOrd, Ord)]
pub struct FormattedItem {
    pub location_name: String,
    pub bin_no: Option<i64>,
    pub name: String,
    pub size: String,
}

impl Item {
    /// Project this record for display: the bin number is shown only when the
    /// location has more than one bin.
    pub fn format(&self) -> (r: FormattedItem)
        ensures
            r.location_name@ == self.location.name@,
            r.bin_no == if self.location.num_bins > 1 {
                Some(self.bin_no)
            } else {
                None::<i64>
            },
            r.name@ == self.name@,
            r.size@ == self.size@,
    {
        let bin_no = if self.location.num_bins > 1 {
            Some(self.bin_no)
        } else {
            None
        };
        FormattedItem {
            location_name: self.location.name.clone(),
            bin_no,
            name: self.name.clone(),
            size: self.size.clone(),
        }
    }
}

impl FormattedItem {
    /// The location label: `name/bin` when a bin number is shown, else the
    /// bare location name.
    pub fn format_location(&self) -> (r: String)
        ensures
            r@ == match self.bin_no {
                Some(n) => self.location_name@ + seq!['/'] + dec_int(n as int),
                None => self.location_name@,
            },
    {
        match self.bin_no {
            Some(n) => {
                let mut r = self.location_name.clone();
                push_char(&mut r, '/');
                let digits = fmt_i64(n);
                r.append(digits.as_str());
                assert(r@ =~= self.location_name@ + seq!['/'] + dec_int(n as int));
                r
            },
            None => self.location_name.clone(),
        }
    }
}

/// Parse a bin number: a decimal integer that must be greater than zero.
pub fn parse_bin_number(s: &str) -> (r: Result<i64, String>)
    ensures
        match r {
            Ok(n) => is_decimal_int(s@) && i64::MIN <= decimal_val(s@) <= i64::MAX && n
                == decimal_val(s@) && n > 0,
            Err(_) => !is_decimal_int(s@) || decimal_val(s@) < i64::MIN || decimal_val(s@)
                > i64::MAX || decimal_val(s@) <= 0,
        },
{
    match parse_i64(s) {
        Some(n) => {
            if n > 0 {
                Ok(n)
            } else {
                Err(String::from_str("must be greater than zero"))
            }
        },
        None => Err(String::from_str("failed to parse bin number")),
    }
}

/// Parse a bin number, rendering any failure as a plain message.
pub fn bin_number_value_parser(s: &str) -> (r: Result<i64, String>)
    ensures
        match r {
            Ok(n) => is_decimal_int(s@) && i64::MIN <= decimal_val(s@) <= i64::MAX && n
                == decimal_val(s@) && n > 0,
            Err(_) => !is_decimal_int(s@) || decimal_val(s@) < i64::MIN || decimal_val(s@)
                > i64::MAX || decimal_val(s@) <= 0,
        },
{
    parse_bin_number(s)
}

/// A location argument as the user writes it: a location name, optionally
/// followed by a bin number.
#[derive(Clone, Debug, PartialEq, Eq)]
pub struct ItemLocation {
    pub location: String,
    pub bin: Option<i64>,
}

/// The index of the first occurrence of `c` in `s`, or -1 when absent.
pub open spec fn find_char(s: Seq<char>, c: char) -> int
    decreases s.len(),
{
    if s.len() == 0 {
        -1
    } else if s[0] == c {
        0
    } else {
        let r = find_char(s.skip(1), c);
        if r < 0 {
            -1
        } else {
            r + 1
        }
    }
}

pub proof fn lemma_find_char(s: Seq<char>, c: char)
    ensures
        find_char(s, c) == -1 <==> (forall|j: int| 0 <= j < s.len() ==> s[j] != c),
        find_char(s, c) >= 0 ==> 0 <= find_char(s, c) < s.len() && s[find_char(s, c)] == c && (
        forall|j: int| 0 <= j < find_char(s, c) ==> s[j] != c),
    decreases s.len(),
{
    if s.len() == 0 {
    } else if s[0] == c {
    } else {
        lemma_find_char(s.skip(1), c);
        assert(forall|j: int| 1 <= j < s.len() ==> s[j] == s.skip(1)[j - 1]);
    }
}

impl ItemLocation {
    /// Parse `LOCATION` or `LOCATION/BIN`: at most one `/`, and the bin part
    /// a decimal number greater than zero.
    pub fn parse(s: &str) -> (r: Result<ItemLocation, String>)
        ensures
            find_char(s@, '/') == -1 ==> (r matches Ok(l) && l.location@ == s@ && l.bin is None),
            find_char(s@, '/') >= 0 && find_char(s@.skip(find_char(s@, '/') + 1), '/') >= 0
                ==> r is Err,
            find_char(s@, '/') >= 0 && find_char(s@.skip(find_char(s@, '/') + 1), '/') == -1 ==> {
                let bin_part = s@.skip(find_char(s@, '/') + 1);
                if is_decimal_int(bin_part) && i64::MIN <= decimal_val(bin_part) <= i64::MAX
                    && decimal_val(bin_part) > 0 {
                    (r matches Ok(l) && l.location@ == s@.take(find_char(s@, '/'))
                        && l.bin == Some(decimal_val(bin_part) as i64))
                } else {
                    r is Err
                }
            },
    {
        proof {
            lemma_find_char(s@, '/');
        }
        let len = s.unicode_len();
        let mut i: usize = 0;
        let mut slash: Option<usize> = None;
        while i < len
            invariant
                0 <= i <= len,
                len == s@.len(),
                match slash {
                    Some(k) => k < i && s@[k as int] == '/' && (forall|j: int|
                        0 <= j < k ==> s@[j] != '/') && (forall|j: int|
                        k < j < i ==> s@[j] != '/'),
                    None => forall|j: int| 0 <= j < i ==> s@[j] != '/',
                },
            decreases len - i,
        {
            if s.get_char(i) == '/' {
                match slash {
                    None => {
                        slash = Some(i);
                    },
                    Some(_) => {
                        // More than one separator.
                        proof {
                            lemma_find_char(s@, '/');
                            let k = find_char(s@, '/');
                            lemma_find_char(s@.skip(k + 1), '/');
                            let k2 = find_char(s@.skip(k + 1), '/');
                            if k2 == -1 {
                                let sl = slash->Some_0 as int;
                                assert(s@[sl] == '/');
                                assert(k == sl);
                                assert(s@.skip(k + 1)[i - k - 1] == s@[i as int]);
                            }
                        }
                        return Err(String::from_str(
                            "item location must be in format LOCATION or LOCATION/BIN",
                        ));
                    },
                }
            }
            i = i + 1;
        }
        match slash {
            None => {
                proof {
                    lemma_find_char(s@, '/');
                }
                Ok(ItemLocation { location: s.to_owned(), bin: None })
            },
            Some(k) => {
                proof {
                    lemma_find_char(s@, '/');
                    assert(find_char(s@, '/') == k);
                    lemma_find_char(s@.skip(k + 1), '/');
                    let k2 = find_char(s@.skip(k + 1), '/');
                    if k2 >= 0 {
                        assert(s@.skip(k + 1)[k2] == s@[k + 1 + k2]);
                    }
                }
                let bin_str = s.substring_char(k + 1, len);
                assert(bin_str@ == s@.skip(k + 1)) by {
                    assert(s@.subrange(k + 1, len as int) =~= s@.skip(k + 1));
                };
                match parse_bin_number(bin_str) {
                    Ok(n) => {
                        let loc = s.substring_char(0, k);
                        assert(loc@ == s@.take(k as int)) by {
                            assert(s@.subrange(0, k as int) =~= s@.take(k as int));
                        };
                        Ok(ItemLocation { location: loc.to_owned(), bin: Some(n) })
                    },
                    Err(e) => Err(e),
                }
            },
        }
    }
}

impl core::str::FromStr for ItemLocation {
    type Err = String;

    fn from_str(s: &str) -> Result<Self, String> {
        ItemLocation::parse(s)
    }
}

/// Items order by location name, then bin number, then item name; the
/// canonical, search-independent row order.
pub open spec fn item_key_le(a: &Item, b: &Item) -> bool {
    if a.location.name@ != b.location.name@ {
        chars_le(a.location.name@, b.location.name@)
    } else if a.bin_no != b.bin_no {
        a.bin_no < b.bin_no
    } else {
        chars_le(a.name@, b.name@)
    }
}

/// Compare two items by the canonical row order.
pub fn item_le(a: &Item, b: &Item) -> (r: bool)
    ensures
        r == item_key_le(a, b),
{
    let an = a.location.name.as_str();
    let bn = b.location.name.as_str();
    if !crate::text::str_eq(an, bn) {
        crate::text::str_le(an, bn)
    } else if a.bin_no != b.bin_no {
        a.bin_no < b.bin_no
    } else {
        crate::text::str_le(a.name.as_str(), b.name.as_str())
    }
}

pub proof fn lemma_item_le_total(a: &Item, b: &Item)
    ensures
        item_key_le(a, b) || item_key_le(b, a),
{
    crate::text::lemma_chars_le_total(a.location.name@, b.location.name@);
    crate::text::lemma_chars_le_total(a.name@, b.name@);
}

pub proof fn lemma_item_le_trans(a: &Item, b: &Item, c: &Item)
    requires
        item_key_le(a, b),
        item_key_le(b, c),
    ensures
        item_key_le(a, c),
{
    if a.location.name@ != b.location.name@ || b.location.name@ != c.location.name@ {
        if a.location.name@ != b.location.name@ && b.location.name@ != c.location.name@ {
            crate::text::lemma_chars_le_trans(a.location.name@, b.location.name@,
                c.location.name@);
            if a.location.name@ == c.location.name@ {
                crate::text::lemma_chars_le_antisymm(a.location.name@, b.location.name@);
            }
        }
    } else {
        if a.bin_no == b.bin_no && b.bin_no == c.bin_no {
            crate::text::lemma_chars_le_trans(a.name@, b.name@, c.name@);
        }
    }
}

} // verus!
