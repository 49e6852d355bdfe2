//! Short command names and display names of the scoring categories.

use vstd::prelude::*;

use crate::Variant;
use vstd::string::StringSliceAdditionalSpecFns;

verus! {

/// Whether `b` is a recognised two-letter category name of variant `v`.
pub open spec fn spec_is_cell_name(v: Variant, b: Seq<u8>) -> bool {
    b.len() == 2 && {
        let c0 = b[0];
        let c1 = b[1];
        ||| (c1 == 115 && 49 <= c0 <= 54)  // "1s" .. "6s"
        ||| (c1 == 112 && (c0 == 49 || c0 == 50))  // "1p", "2p"
        ||| (c1 == 112 && c0 == 51 && v is Six)  // "3p"
        ||| (c1 == 108 && (c0 == 51 || c0 == 52))  // "3l", "4l"
        ||| (c1 == 108 && c0 == 53 && v is Six)  // "5l"
        ||| (c0 == 108 && c1 == 115)  // "ls"
        ||| (c0 == 115 && c1 == 115)  // "ss"
        ||| (c0 == 102 && c1 == 115 && v is Six)  // "fs"
        ||| (c0 == 104 && c1 == 116 && v is Six)  // "ht"
        ||| (c0 == 104 && c1 == 115)  // "hs"
        ||| (c0 == 116 && c1 == 114 && v is Six)  // "tr"
        ||| (c0 == 99 && c1 == 104)  // "ch"
        ||| (c0 == 115 && c1 == 106)  // "sj"
        ||| (c0 == 121 && c1 == 122)  // "yz"
    }
}

/// The category index that the two-letter name `b` denotes in variant `v`.
pub open spec fn spec_cell_name_index(v: Variant, b: Seq<u8>) -> int {
    let c0 = b[0];
    let c1 = b[1];
    if c1 == 115 && 49 <= c0 <= 54 {
        c0 - 49
    } else if c1 == 112 && c0 == 49 {
        6
    } else if c1 == 112 && c0 == 50 {
        7
    } else if c1 == 112 && c0 == 51 {
        8
    } else if c1 == 108 && c0 == 51 {
        if v is Five {
            8
        } else {
            9
        }
    } else if c1 == 108 && c0 == 52 {
        if v is Five {
            9
        } else {
            10
        }
    } else if c1 == 108 && c0 == 53 {
        11
    } else if c0 == 108 && c1 == 115 {
        if v is Five {
            10
        } else {
            12
        }
    } else if c0 == 115 && c1 == 115 {
        if v is Five {
            11
        } else {
            13
        }
    } else if c0 == 102 && c1 == 115 {
        14
    } else if c0 == 104 && c1 == 116 {
        15
    } else if c0 == 104 && c1 == 115 {
        if v is Five {
            12
        } else {
            16
        }
    } else if c0 == 116 && c1 == 114 {
        17
    } else if (c0 == 99 && c1 == 104) || (c0 == 115 && c1 == 106) {
        if v is Five {
            13
        } else {
            18
        }
    } else {
        if v is Five {
            14
        } else {
            19
        }
    }
}

/// The category index denoted by the two-letter command name `name` for the
/// `n`-dice variant (for example `"1s"` for ones, `"yz"` for yahtzee).
pub fn get_yahtzee_index(n: u64, name: &str) -> (r: usize)
    requires
        n == 5 || n == 6,
        spec_is_cell_name(
            if n == 5 {
                Variant::Five
            } else {
                Variant::Six
            },
            name.spec_bytes(),
        ),
    ensures
        r == spec_cell_name_index(
            if n == 5 {
                Variant::Five
            } else {
                Variant::Six
            },
            name.spec_bytes(),
        ),
        r < if n == 5 {
            15int
        } else {
            20int
        },
{
    let b = name.as_bytes();
    let c0 = b[0];
    let c1 = b[1];
    if c1 == 115 && 49 <= c0 && c0 <= 54 {
        (c0 - 49) as usize
    } else if c1 == 112 && c0 == 49 {
        6
    } else if c1 == 112 && c0 == 50 {
        7
    } else if c1 == 112 && c0 == 51 {
        8
    } else if c1 == 108 && c0 == 51 {
        if n == 5 {
            8
        } else {
            9
        }
    } else if c1 == 108 && c0 == 52 {
        if n == 5 {
            9
        } else {
            10
        }
    } else if c1 == 108 && c0 == 53 {
        11
    } else if c0 == 108 && c1 == 115 {
        if n == 5 {
            10
        } else {
            12
        }
    } else if c0 == 115 && c1 == 115 {
        if n == 5 {
            11
        } else {
            13
        }
    } else if c0 == 102 && c1 == 115 {
        14
    } else if c0 == 104 && c1 == 116 {
        15
    } else if c0 == 104 && c1 == 115 {
        if n == 5 {
            12
        } else {
            16
        }
    } else if c0 == 116 && c1 == 114 {
        17
    } else if (c0 == 99 && c1 == 104) || (c0 == 115 && c1 == 106) {
        if n == 5 {
            13
        } else {
            18
        }
    } else {
        if n == 5 {
            14
        } else {
            19
        }
    }
}

/// The display name of category `ind` in variant `v`, as a character
/// sequence.
pub open spec fn spec_index_name(v: Variant, ind: int) -> Seq<char> {
    if ind == 0 {
        "ones"@
    } else if ind == 1 {
        "twos"@
    } else if ind == 2 {
        "threes"@
    } else if ind == 3 {
        "fours"@
    } else if ind == 4 {
        "fives"@
    } else if ind == 5 {
        "sixes"@
    } else if ind == 6 {
        "1 pair"@
    } else if ind == 7 {
        "2 pairs"@
    } else if v is Six && ind == 8 {
        "3 pairs"@
    } else if (v is Five && ind == 8) || (v is Six && ind == 9) {
        "3 of a kind"@
    } else if (v is Five && ind == 9) || (v is Six && ind == 10) {
        "4 of a kind"@
    } else if v is Six && ind == 11 {
        "5 of a kind"@
    } else if (v is Five && ind == 10) || (v is Six && ind == 12) {
        "small straight"@
    } else if (v is Five && ind == 11) || (v is Six && ind == 13) {
        "large straight"@
    } else if v is Six && ind == 14 {
        "full straight"@
    } else if v is Six && ind == 15 {
        "hut"@
    } else if (v is Five && ind == 12) || (v is Six && ind == 16) {
        "house"@
    } else if v is Six && ind == 17 {
        "tower"@
    } else if (v is Five && ind == 13) || (v is Six && ind == 18) {
        "chance"@
    } else {
        "yahtzee"@
    }
}

/// The display name of category `ind` for the `n`-dice variant.
pub fn get_index_name(n: u64, ind: usize) -> (r: &'static str)
    requires
        n == 5 || n == 6,
        ind < if n == 5 {
            15int
        } else {
            20int
        },
    ensures
        r@ == spec_index_name(
            if n == 5 {
                Variant::Five
            } else {
                Variant::Six
            },
            ind as int,
        ),
{
    if ind == 0 {
        "ones"
    } else if ind == 1 {
        "twos"
    } else if ind == 2 {
        "threes"
    } else if ind == 3 {
        "fours"
    } else if ind == 4 {
        "fives"
    } else if ind == 5 {
        "sixes"
    } else if ind == 6 {
        "1 pair"
    } else if ind == 7 {
        "2 pairs"
    } else if n == 6 && ind == 8 {
        "3 pairs"
    } else if (n == 5 && ind == 8) || (n == 6 && ind == 9) {
        "3 of a kind"
    } else if (n == 5 && ind == 9) || (n == 6 && ind == 10) {
        "4 of a kind"
    } else if n == 6 && ind == 11 {
        "5 of a kind"
    } else if (n == 5 && ind == 10) || (n == 6 && ind == 12) {
        "small straight"
    } else if (n == 5 && ind == 11) || (n == 6 && ind == 13) {
        "large straight"
    } else if n == 6 && ind == 14 {
        "full straight"
    } else if n == 6 && ind == 15 {
        "hut"
    } else if (n == 5 && ind == 12) || (n == 6 && ind == 16) {
        "house"
    } else if n == 6 && ind == 17 {
        "tower"
    } else if (n == 5 && ind == 13) || (n == 6 && ind == 18) {
        "chance"
    } else {
        "yahtzee"
    }
}

} // verus!
