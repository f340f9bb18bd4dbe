//! The closed set of blend modes and the names they go by in parameters.

use vstd::prelude::*;
use crate::text::chars_of;

verus! {

/// How the pixel of a layer is merged with the pixel under it: one of twelve
/// fixed rules.
#[derive(Clone, Copy, Debug, PartialEq, Eq, Structural)]
pub enum BlendingMode {
    Normal,
    Multiply,
    Screen,
    Overlay,
    Darken,
    Lighten,
    ColorDodge,
    ColorBurn,
    HardLight,
    SoftLight,
    Difference,
    Exclusion,
}

impl Default for BlendingMode {
    fn default() -> (mode: Self)
        ensures
            mode == BlendingMode::Normal,
    {
        BlendingMode::Normal
    }
}

impl BlendingMode {
    /// The name of a mode: lower case, words joined by a hyphen.
    pub open spec fn name_spec(self) -> Seq<char> {
        match self {
            BlendingMode::Normal => "normal"@,
            BlendingMode::Multiply => "multiply"@,
            BlendingMode::Screen => "screen"@,
            BlendingMode::Overlay => "overlay"@,
            BlendingMode::Darken => "darken"@,
            BlendingMode::Lighten => "lighten"@,
            BlendingMode::ColorDodge => "color-dodge"@,
            BlendingMode::ColorBurn => "color-burn"@,
            BlendingMode::HardLight => "hard-light"@,
            BlendingMode::SoftLight => "soft-light"@,
            BlendingMode::Difference => "difference"@,
            BlendingMode::Exclusion => "exclusion"@,
        }
    }

    /// The mode that a text names, if any. The match is exact: case counts
    /// and nothing is trimmed.
    pub open spec fn named(text: Seq<char>) -> Option<BlendingMode> {
        if exists|mode: BlendingMode| mode.name_spec() == text {
            Some(choose|mode: BlendingMode| mode.name_spec() == text)
        } else {
            None
        }
    }

    /// The name of the mode, as parameters write it.
    pub fn name(&self) -> (name: &'static str)
        ensures
            name@ == self.name_spec(),
    {
        match self {
            BlendingMode::Normal => "normal",
            BlendingMode::Multiply => "multiply",
            BlendingMode::Screen => "screen",
            BlendingMode::Overlay => "overlay",
            BlendingMode::Darken => "darken",
            BlendingMode::Lighten => "lighten",
            BlendingMode::ColorDodge => "color-dodge",
            BlendingMode::ColorBurn => "color-burn",
            BlendingMode::HardLight => "hard-light",
            BlendingMode::SoftLight => "soft-light",
            BlendingMode::Difference => "difference",
            BlendingMode::Exclusion => "exclusion",
        }
    }

    /// The twelve modes, in the order of their declaration.
    pub fn all() -> (modes: Vec<BlendingMode>)
        ensures
            modes@ == seq![
                BlendingMode::Normal,
                BlendingMode::Multiply,
                BlendingMode::Screen,
                BlendingMode::Overlay,
                BlendingMode::Darken,
                BlendingMode::Lighten,
                BlendingMode::ColorDodge,
                BlendingMode::ColorBurn,
                BlendingMode::HardLight,
                BlendingMode::SoftLight,
                BlendingMode::Difference,
                BlendingMode::Exclusion,
            ],
            forall|mode: BlendingMode| modes@.contains(mode),
    {
        let modes = vec![
            BlendingMode::Normal,
            BlendingMode::Multiply,
            BlendingMode::Screen,
            BlendingMode::Overlay,
            BlendingMode::Darken,
            BlendingMode::Lighten,
            BlendingMode::ColorDodge,
            BlendingMode::ColorBurn,
            BlendingMode::HardLight,
            BlendingMode::SoftLight,
            BlendingMode::Difference,
            BlendingMode::Exclusion,
        ];
        proof {
            assert forall|mode: BlendingMode| modes@.contains(mode) by {
                match mode {
                    BlendingMode::Normal => assert(modes@[0] == mode),
                    BlendingMode::Multiply => assert(modes@[1] == mode),
                    BlendingMode::Screen => assert(modes@[2] == mode),
                    BlendingMode::Overlay => assert(modes@[3] == mode),
                    BlendingMode::Darken => assert(modes@[4] == mode),
                    BlendingMode::Lighten => assert(modes@[5] == mode),
                    BlendingMode::ColorDodge => assert(modes@[6] == mode),
                    BlendingMode::ColorBurn => assert(modes@[7] == mode),
                    BlendingMode::HardLight => assert(modes@[8] == mode),
                    BlendingMode::SoftLight => assert(modes@[9] == mode),
                    BlendingMode::Difference => assert(modes@[10] == mode),
                    BlendingMode::Exclusion => assert(modes@[11] == mode),
                }
            }
        }
        modes
    }

    /// Finds the mode that `src` names.
    pub fn from_name(src: &str) -> (found: Option<BlendingMode>)
        ensures
            found == BlendingMode::named(src@),
            found matches Some(mode) ==> mode.name_spec() == src@,
            found is None ==> forall|mode: BlendingMode| mode.name_spec() != src@,
    {
        let wanted = chars_of(src);
        let modes = BlendingMode::all();
        let mut i: usize = 0;
        while i < modes.len()
            invariant
                wanted@ == src@,
                i <= modes.len(),
                forall|mode: BlendingMode| modes@.contains(mode),
                forall|k: int| 0 <= k < i ==> modes@[k].name_spec() != src@,
            decreases modes.len() - i,
        {
            let mode: BlendingMode = modes[i];
            let name = chars_of(mode.name());
            if same_chars(&wanted, &name) {
                proof {
                    lemma_names_differ();
                }
                return Some(mode);
            }
            i += 1;
        }
        proof {
            assert forall|mode: BlendingMode| mode.name_spec() != src@ by {
                assert(modes@.contains(mode));
                let k = choose|k: int| 0 <= k < modes@.len() && modes@[k] == mode;
                assert(modes@[k].name_spec() != src@);
            }
        }
        None
    }
}

fn same_chars(a: &Vec<char>, b: &Vec<char>) -> (same: bool)
    ensures
        same == (a@ == b@),
{
    if a.len() != b.len() {
        return false;
    }
    let mut i: usize = 0;
    while i < a.len()
        invariant
            a.len() == b.len(),
            i <= a.len(),
            forall|k: int| 0 <= k < i ==> a[k] == b[k],
        decreases a.len() - i,
    {
        if a[i] != b[i] {
            return false;
        }
        i += 1;
    }
    proof {
        assert(a@ =~= b@);
    }
    true
}

/// No two modes share a name, so a name finds the mode it came from.
pub proof fn lemma_names_differ()
    ensures
        forall|a: BlendingMode, b: BlendingMode| a.name_spec() == b.name_spec() ==> a == b,
        forall|mode: BlendingMode| BlendingMode::named(mode.name_spec()) == Some(mode),
{
    reveal_strlit("normal");
    reveal_strlit("multiply");
    reveal_strlit("screen");
    reveal_strlit("overlay");
    reveal_strlit("darken");
    reveal_strlit("lighten");
    reveal_strlit("color-dodge");
    reveal_strlit("color-burn");
    reveal_strlit("hard-light");
    reveal_strlit("soft-light");
    reveal_strlit("difference");
    reveal_strlit("exclusion");
    assert forall|a: BlendingMode, b: BlendingMode| a.name_spec() == b.name_spec() implies a
        == b by {
        let x = a.name_spec();
        let y = b.name_spec();
        assert(x.len() == y.len());
        assert(x[0] == y[0]);
    }
    assert forall|mode: BlendingMode| BlendingMode::named(mode.name_spec()) == Some(mode) by {
        let found = choose|other: BlendingMode| other.name_spec() == mode.name_spec();
        assert(found.name_spec() == mode.name_spec());
    }
}

} // verus!
