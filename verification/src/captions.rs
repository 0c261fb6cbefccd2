//! The captions in words.
//!
//! How a number is written in digits is up to the caller; this module says which
//! numbers, with how many decimals, and puts the text together.

use vstd::prelude::*;
use vstd::string::*;
use crate::float::Float;
use crate::scene::Caption;
use crate::sliders::{SLIDERS, label_of, slider_label};
use crate::text::{decimal_text, digits_of};

verus! {

/// A number to write: with how many decimals, and whether with a sign in any case.
#[derive(Clone, Copy, Debug)]
pub struct Figure {
    pub value: Float,
    pub decimals: usize,
    pub plus: bool,
}

/// The numbers of a caption, in their order.
pub open spec fn figures_of(caption: Caption) -> Seq<Figure> {
    match caption {
        Caption::Volume { percent, .. } => seq![
            Figure { value: percent, decimals: 0, plus: false },
        ],
        Caption::Slider { index, value } => seq![
            Figure { value, decimals: if index == 0 { 3 } else { 2 }, plus: false },
        ],
        Caption::Energies { kinetic, potential } => seq![
            Figure { value: kinetic, decimals: 0, plus: false },
            Figure { value: potential, decimals: 0, plus: false },
        ],
        Caption::Momentum { value } => seq![Figure { value, decimals: 0, plus: true }],
        _ => Seq::empty(),
    }
}

/// The numbers of a caption, in their order.
pub fn figures(caption: &Caption) -> (v: Vec<Figure>)
    ensures
        v@ == figures_of(*caption),
{
    let mut v: Vec<Figure> = Vec::new();
    match *caption {
        Caption::Volume { percent, .. } => {
            v.push(Figure { value: percent, decimals: 0, plus: false });
        },
        Caption::Slider { index, value } => {
            let decimals: usize = if index == 0 {
                3
            } else {
                2
            };
            v.push(Figure { value, decimals, plus: false });
        },
        Caption::Energies { kinetic, potential } => {
            v.push(Figure { value: kinetic, decimals: 0, plus: false });
            v.push(Figure { value: potential, decimals: 0, plus: false });
        },
        Caption::Momentum { value } => {
            v.push(Figure { value, decimals: 0, plus: true });
        },
        _ => {},
    }
    assert(v@ =~= figures_of(*caption));
    v
}

/// Whether a caption can be put into words with these texts: one for each of its
/// numbers, and the frame rate where the number of balls is shown.
pub open spec fn can_be_said(caption: Caption, texts: Seq<String>) -> bool {
    &&& texts.len() == if caption is Balls {
        1
    } else {
        figures_of(caption).len()
    }
    &&& caption matches Caption::Slider { index, .. } ==> index < SLIDERS
}

/// A caption in words, with its numbers written as in `texts`.
pub open spec fn words_of(caption: Caption, texts: Seq<String>) -> Seq<char> {
    match caption {
        Caption::Title => "Newton's Cradle"@,
        Caption::Balls { count } => "balls: "@ + digits_of(count as nat) + "   fps: "@ + texts[0]@,
        Caption::Volume { mute, paused, .. } => "vol "@ + texts[0]@ + "%"@ + (if mute {
            " (muted)"@
        } else {
            ""@
        }) + "   "@ + (if paused {
            "PAUSED"@
        } else {
            ""@
        }),
        Caption::Help => "drag ball/sliders  |  1-4 pull  |  R reset  |  Up/Down count  |  M mute  -/= vol  ,/. time  Space pause  |  Esc quit"@,
        Caption::Slider { index, .. } => label_of(index) + ": "@ + texts[0]@ + (if index == 0 {
            ""@
        } else {
            "x"@
        }),
        Caption::Energy => "ENERGY (a.u.)"@,
        Caption::Energies { .. } => "KE "@ + texts[0]@ + "   PE "@ + texts[1]@,
        Caption::Momentum { .. } => "momentum "@ + texts[0]@,
        Caption::Updating => "updating room acoustics..."@,
    }
}

/// A caption in words. `texts` holds its numbers as they are written, one for each of
/// its `figures`; the caption with the number of balls takes the frame rate.
pub fn words(caption: &Caption, texts: &Vec<String>) -> (s: String)
    requires
        can_be_said(*caption, texts@),
    ensures
        s@ == words_of(*caption, texts@),
{
    let mut s = String::new();
    match *caption {
        Caption::Title => {
            s.append("Newton's Cradle");
        },
        Caption::Balls { count } => {
            s.append("balls: ");
            s.append(decimal_text(count).as_str());
            s.append("   fps: ");
            s.append(texts[0].as_str());
        },
        Caption::Volume { mute, paused, .. } => {
            s.append("vol ");
            s.append(texts[0].as_str());
            s.append("%");
            s.append(
                if mute {
                    " (muted)"
                } else {
                    ""
                },
            );
            s.append("   ");
            s.append(
                if paused {
                    "PAUSED"
                } else {
                    ""
                },
            );
        },
        Caption::Help => {
            s.append(
                "drag ball/sliders  |  1-4 pull  |  R reset  |  Up/Down count  |  M mute  -/= vol  ,/. time  Space pause  |  Esc quit",
            );
        },
        Caption::Slider { index, .. } => {
            s.append(slider_label(index));
            s.append(": ");
            s.append(texts[0].as_str());
            s.append(
                if index == 0 {
                    ""
                } else {
                    "x"
                },
            );
        },
        Caption::Energy => {
            s.append("ENERGY (a.u.)");
        },
        Caption::Energies { .. } => {
            s.append("KE ");
            s.append(texts[0].as_str());
            s.append("   PE ");
            s.append(texts[1].as_str());
        },
        Caption::Momentum { .. } => {
            s.append("momentum ");
            s.append(texts[0].as_str());
        },
        Caption::Updating => {
            s.append("updating room acoustics...");
        },
    }
    assert(s@ =~= words_of(*caption, texts@));
    s
}

} // verus!
