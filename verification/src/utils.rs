//! Creating items: validating the requested bin, or picking the emptiest
//! bin from the items already stored at the location.

use vstd::prelude::*;

use crate::text::{dec_int, fmt_i64};
use crate::types::{spec_parse_size, spec_size_str, Item, ItemSize, Location};

verus! {

/// The load a size places on a bin.
pub open spec fn spec_size_weight(z: ItemSize) -> int {
    match z {
        ItemSize::S => 2,
        ItemSize::M => 3,
        ItemSize::L => 4,
        ItemSize::X => 6,
    }
}

/// How full a bin is: the summed size weights of the first `upto` items
/// stored in it.
pub open spec fn spec_bin_fullness(items: Seq<Item>, bin: i64, upto: int) -> int
    decreases upto,
{
    if upto <= 0 {
        0
    } else {
        spec_bin_fullness(items, bin, upto - 1) + if items[upto - 1].bin_no == bin {
            match spec_parse_size(items[upto - 1].size@) {
                Some(z) => spec_size_weight(z),
                None => 0,
            }
        } else {
            0
        }
    }
}

/// Whether every item's size code parses.
pub open spec fn all_sizes_parse(items: Seq<Item>) -> bool {
    forall|j: int| 0 <= j < items.len() ==> spec_parse_size((#[trigger] items[j]).size@) is Some
}

proof fn lemma_fullness_bounds(items: Seq<Item>, bin: i64, upto: int)
    requires
        0 <= upto <= items.len(),
    ensures
        0 <= spec_bin_fullness(items, bin, upto) <= 6 * upto,
    decreases upto,
{
    if upto > 0 {
        lemma_fullness_bounds(items, bin, upto - 1);
    }
}

/// How full one bin is, over all the location's items.
fn bin_fullness(items: &Vec<Item>, bin: i64) -> (r: i64)
    requires
        items@.len() <= 1000000000,
    ensures
        r == spec_bin_fullness(items@, bin, items@.len() as int),
{
    let mut total: i64 = 0;
    let mut j: usize = 0;
    while j < items.len()
        invariant
            0 <= j <= items@.len(),
            items@.len() <= 1000000000,
            total == spec_bin_fullness(items@, bin, j as int),
        decreases items@.len() - j,
    {
        proof {
            lemma_fullness_bounds(items@, bin, j as int);
        }
        if items[j].bin_no == bin {
            let w = match ItemSize::parse_size(items[j].size.as_str()) {
                Ok(z) => z.fullness(),
                Err(_) => 0,
            };
            total = total + w;
        }
        j = j + 1;
    }
    total
}

/// Pick the bin for a new item: the first bin whose load is no more than
/// any other's. Fails when an existing item's size code cannot be read.
pub fn choose_bin(num_bins: i64, items: &Vec<Item>) -> (r: Result<i64, String>)
    requires
        1 <= num_bins < i64::MAX,
        items@.len() <= 1000000000,
    ensures
        match r {
            Ok(b) => {
                let n = items@.len() as int;
                &&& all_sizes_parse(items@)
                &&& 1 <= b <= num_bins
                &&& forall|b2: i64|
                    1 <= b2 <= num_bins ==> spec_bin_fullness(items@, b, n) <= spec_bin_fullness(
                        items@,
                        b2,
                        n,
                    )
                &&& forall|b2: i64|
                    1 <= b2 < b ==> spec_bin_fullness(items@, b2, n) > spec_bin_fullness(
                        items@,
                        b,
                        n,
                    )
            },
            Err(_) => !all_sizes_parse(items@),
        },
{
    let mut j: usize = 0;
    while j < items.len()
        invariant
            0 <= j <= items@.len(),
            forall|k: int|
                0 <= k < j ==> spec_parse_size((#[trigger] items@[k]).size@) is Some,
        decreases items@.len() - j,
    {
        if let Err(e) = ItemSize::parse_size(items[j].size.as_str()) {
            return Err(e);
        }
        j = j + 1;
    }
    let mut best_bin: i64 = 1;
    let mut best = bin_fullness(items, 1);
    let mut bin: i64 = 2;
    while bin <= num_bins
        invariant
            2 <= bin <= num_bins + 1,
            num_bins < i64::MAX,
            items@.len() <= 1000000000,
            1 <= best_bin < bin,
            best == spec_bin_fullness(items@, best_bin, items@.len() as int),
            forall|b2: i64|
                1 <= b2 < bin ==> spec_bin_fullness(items@, best_bin, items@.len() as int)
                    <= spec_bin_fullness(items@, b2, items@.len() as int),
            forall|b2: i64|
                1 <= b2 < best_bin ==> spec_bin_fullness(items@, b2, items@.len() as int)
                    > spec_bin_fullness(items@, best_bin, items@.len() as int),
        decreases num_bins + 1 - bin,
    {
        let f = bin_fullness(items, bin);
        if f < best {
            best = f;
            best_bin = bin;
        }
        bin = bin + 1;
    }
    Ok(best_bin)
}

/// The message given when the requested bin does not exist.
pub open spec fn spec_bin_error(location: crate::types::LocationView) -> Seq<char> {
    "location "@ + location.name + " only has "@ + dec_int(location.num_bins as int) + " bins"@
}

/// Check a requested bin number against the location: a bin past the
/// location's last is refused.
pub fn validate_bin(location: &Location, bin_no: i64) -> (r: Result<i64, String>)
    ensures
        match r {
            Ok(n) => bin_no <= location.num_bins && n == bin_no,
            Err(e) => bin_no > location.num_bins && e@ == spec_bin_error(location@),
        },
{
    if bin_no > location.num_bins {
        let mut msg = String::from_str("location ");
        msg.append(location.name.as_str());
        msg.append(" only has ");
        let n = fmt_i64(location.num_bins);
        msg.append(n.as_str());
        msg.append(" bins");
        proof {
            assert(msg@ =~= spec_bin_error(location@));
        }
        Err(msg)
    } else {
        Ok(bin_no)
    }
}

/// The value of a new item, before the store assigns it an identity.
pub fn make_item(name: String, location: &Location, bin_number: i64, size: ItemSize) -> (r: Item)
    ensures
        r.object_id is None,
        r.name@ == name@,
        r.location@ == location@,
        r.bin_no == bin_number,
        r.size@ == spec_size_str(size),
{
    Item {
        object_id: None,
        name,
        location: crate::projection::clone_location(location),
        bin_no: bin_number,
        size: size.to_string(),
    }
}

} // verus!
