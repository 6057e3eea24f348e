use vstd::prelude::*;

verus! {

/// A red-green-blue-alpha pixel: `[red, green, blue, alpha]`.
pub struct Rgba(pub [u32; 4]);

/// A packed `0xRRGGBB` color.
pub struct Hex(pub u32);

/// The packed color that a color name stands for; black for an unknown name.
pub open spec fn word_color(word: Seq<char>) -> u32 {
    if word == "white"@ {
        0xffffff
    } else if word == "grey"@ {
        0xd1d1d1
    } else if word == "red"@ {
        0xff0000
    } else if word == "blue"@ {
        0x4328ed
    } else if word == "green"@ {
        0x008000
    } else {
        0x000000
    }
}

impl Hex {
    /// The packed color for a color name.
    pub fn from_word(color: &str) -> (r: u32)
        ensures
            r == word_color(color@),
    {
        let word = color.to_owned();
        if word == "white".to_owned() {
            0xffffff
        } else if word == "grey".to_owned() {
            0xd1d1d1
        } else if word == "red".to_owned() {
            0xff0000
        } else if word == "blue".to_owned() {
            0x4328ed
        } else if word == "green".to_owned() {
            0x008000
        } else {
            0x000000
        }
    }
}

} // verus!
