use vstd::prelude::*;

verus! {

/// Rows of the key grid.
pub const ROWS: usize = 4;

/// Columns of the key grid.
pub const COLS: usize = 6;

/// Key positions on one layer: `ROWS * COLS`, stored row by row.
pub const KEYS: usize = 24;

/// Most layers a configuration may declare.
pub const NUM_LAYERS: usize = 10;

/// Whether two strings hold the same characters.
pub fn text_is(s: &str, lit: &str) -> (r: bool)
    ensures
        r == (s@ == lit@),
{
    let n = s.unicode_len();
    if n != lit.unicode_len() {
        return false;
    }
    let mut i: usize = 0;
    while i < n
        invariant
            n == s@.len(),
            n == lit@.len(),
            i <= n,
            forall|k: int| 0 <= k < i ==> s@[k] == lit@[k],
        decreases n - i,
    {
        if s.get_char(i) != lit.get_char(i) {
            return false;
        }
        i = i + 1;
    }
    assert(s@ =~= lit@);
    true
}

/// The key codes that a configuration can name.
#[derive(Debug, Clone, Copy, PartialEq, Eq, Structural)]
pub enum Key {
    A,
    B,
    C,
    D,
    E,
    F,
    G,
    H,
    I,
    J,
    K,
    L,
    M,
    N,
    O,
    P,
    Q,
    R,
    S,
    T,
    U,
    V,
    W,
    X,
    Y,
    Z,
    ESC,
    LCTL,
    LSFT,
    LGUI,
    LALT,
    /// Backspace
    BKSP,
    /// Tab
    TAB,
    /// Space
    SPC,
    /// Number row
    N0,
    N1,
    N2,
    N3,
    N4,
    N5,
    N6,
    N7,
    N8,
    N9,
    RET,
    DEL,
    /// Minus
    MNS,
    /// Equal
    EQL,
    /// Backslash
    BSLH,
    /// Forward slash
    FSLH,
    /// Parentheses
    LPRN,
    RPRN,
    /// Square brackets
    LSBR,
    RSBR,
    /// Curly braces
    LCBR,
    RCBR,
    /// Quotation mark
    QUOT,
    /// Arrows
    UP,
    LFT,
    RHT,
    DN,
}

/// The key that `name` denotes, if it is one of the supported key names.
pub open spec fn key_named(name: Seq<char>) -> Option<Key> {
    if name == "A"@ {
        Some(Key::A)
    } else if name == "B"@ {
        Some(Key::B)
    } else if name == "C"@ {
        Some(Key::C)
    } else if name == "D"@ {
        Some(Key::D)
    } else if name == "E"@ {
        Some(Key::E)
    } else if name == "F"@ {
        Some(Key::F)
    } else if name == "G"@ {
        Some(Key::G)
    } else if name == "H"@ {
        Some(Key::H)
    } else if name == "I"@ {
        Some(Key::I)
    } else if name == "J"@ {
        Some(Key::J)
    } else if name == "K"@ {
        Some(Key::K)
    } else if name == "L"@ {
        Some(Key::L)
    } else if name == "M"@ {
        Some(Key::M)
    } else if name == "N"@ {
        Some(Key::N)
    } else if name == "O"@ {
        Some(Key::O)
    } else if name == "P"@ {
        Some(Key::P)
    } else if name == "Q"@ {
        Some(Key::Q)
    } else if name == "R"@ {
        Some(Key::R)
    } else if name == "S"@ {
        Some(Key::S)
    } else if name == "T"@ {
        Some(Key::T)
    } else if name == "U"@ {
        Some(Key::U)
    } else if name == "V"@ {
        Some(Key::V)
    } else if name == "W"@ {
        Some(Key::W)
    } else if name == "X"@ {
        Some(Key::X)
    } else if name == "Y"@ {
        Some(Key::Y)
    } else if name == "Z"@ {
        Some(Key::Z)
    } else if name == "ESC"@ {
        Some(Key::ESC)
    } else if name == "LCTL"@ {
        Some(Key::LCTL)
    } else if name == "LSFT"@ {
        Some(Key::LSFT)
    } else if name == "LGUI"@ {
        Some(Key::LGUI)
    } else if name == "LALT"@ {
        Some(Key::LALT)
    } else if name == "BKSP"@ {
        Some(Key::BKSP)
    } else if name == "TAB"@ {
        Some(Key::TAB)
    } else if name == "SPC"@ {
        Some(Key::SPC)
    } else if name == "N0"@ {
        Some(Key::N0)
    } else if name == "N1"@ {
        Some(Key::N1)
    } else if name == "N2"@ {
        Some(Key::N2)
    } else if name == "N3"@ {
        Some(Key::N3)
    } else if name == "N4"@ {
        Some(Key::N4)
    } else if name == "N5"@ {
        Some(Key::N5)
    } else if name == "N6"@ {
        Some(Key::N6)
    } else if name == "N7"@ {
        Some(Key::N7)
    } else if name == "N8"@ {
        Some(Key::N8)
    } else if name == "N9"@ {
        Some(Key::N9)
    } else if name == "RET"@ {
        Some(Key::RET)
    } else if name == "DEL"@ {
        Some(Key::DEL)
    } else if name == "MNS"@ {
        Some(Key::MNS)
    } else if name == "EQL"@ {
        Some(Key::EQL)
    } else if name == "BSLH"@ {
        Some(Key::BSLH)
    } else if name == "FSLH"@ {
        Some(Key::FSLH)
    } else if name == "LPRN"@ {
        Some(Key::LPRN)
    } else if name == "RPRN"@ {
        Some(Key::RPRN)
    } else if name == "LSBR"@ {
        Some(Key::LSBR)
    } else if name == "RSBR"@ {
        Some(Key::RSBR)
    } else if name == "LCBR"@ {
        Some(Key::LCBR)
    } else if name == "RCBR"@ {
        Some(Key::RCBR)
    } else if name == "QUOT"@ {
        Some(Key::QUOT)
    } else if name == "UP"@ {
        Some(Key::UP)
    } else if name == "LFT"@ {
        Some(Key::LFT)
    } else if name == "RHT"@ {
        Some(Key::RHT)
    } else if name == "DN"@ {
        Some(Key::DN)
    } else {
        None
    }
}

impl Key {
    /// Looks a key up by its name in the configuration language.
    pub fn from_name(name: &str) -> (r: Option<Key>)
        ensures
            r == key_named(name@),
    {
        if text_is(name, "A") {
            Some(Key::A)
        } else if text_is(name, "B") {
            Some(Key::B)
        } else if text_is(name, "C") {
            Some(Key::C)
        } else if text_is(name, "D") {
            Some(Key::D)
        } else if text_is(name, "E") {
            Some(Key::E)
        } else if text_is(name, "F") {
            Some(Key::F)
        } else if text_is(name, "G") {
            Some(Key::G)
        } else if text_is(name, "H") {
            Some(Key::H)
        } else if text_is(name, "I") {
            Some(Key::I)
        } else if text_is(name, "J") {
            Some(Key::J)
        } else if text_is(name, "K") {
            Some(Key::K)
        } else if text_is(name, "L") {
            Some(Key::L)
        } else if text_is(name, "M") {
            Some(Key::M)
        } else if text_is(name, "N") {
            Some(Key::N)
        } else if text_is(name, "O") {
            Some(Key::O)
        } else if text_is(name, "P") {
            Some(Key::P)
        } else if text_is(name, "Q") {
            Some(Key::Q)
        } else if text_is(name, "R") {
            Some(Key::R)
        } else if text_is(name, "S") {
            Some(Key::S)
        } else if text_is(name, "T") {
            Some(Key::T)
        } else if text_is(name, "U") {
            Some(Key::U)
        } else if text_is(name, "V") {
            Some(Key::V)
        } else if text_is(name, "W") {
            Some(Key::W)
        } else if text_is(name, "X") {
            Some(Key::X)
        } else if text_is(name, "Y") {
            Some(Key::Y)
        } else if text_is(name, "Z") {
            Some(Key::Z)
        } else if text_is(name, "ESC") {
            Some(Key::ESC)
        } else if text_is(name, "LCTL") {
            Some(Key::LCTL)
        } else if text_is(name, "LSFT") {
            Some(Key::LSFT)
        } else if text_is(name, "LGUI") {
            Some(Key::LGUI)
        } else if text_is(name, "LALT") {
            Some(Key::LALT)
        } else if text_is(name, "BKSP") {
            Some(Key::BKSP)
        } else if text_is(name, "TAB") {
            Some(Key::TAB)
        } else if text_is(name, "SPC") {
            Some(Key::SPC)
        } else if text_is(name, "N0") {
            Some(Key::N0)
        } else if text_is(name, "N1") {
            Some(Key::N1)
        } else if text_is(name, "N2") {
            Some(Key::N2)
        } else if text_is(name, "N3") {
            Some(Key::N3)
        } else if text_is(name, "N4") {
            Some(Key::N4)
        } else if text_is(name, "N5") {
            Some(Key::N5)
        } else if text_is(name, "N6") {
            Some(Key::N6)
        } else if text_is(name, "N7") {
            Some(Key::N7)
        } else if text_is(name, "N8") {
            Some(Key::N8)
        } else if text_is(name, "N9") {
            Some(Key::N9)
        } else if text_is(name, "RET") {
            Some(Key::RET)
        } else if text_is(name, "DEL") {
            Some(Key::DEL)
        } else if text_is(name, "MNS") {
            Some(Key::MNS)
        } else if text_is(name, "EQL") {
            Some(Key::EQL)
        } else if text_is(name, "BSLH") {
            Some(Key::BSLH)
        } else if text_is(name, "FSLH") {
            Some(Key::FSLH)
        } else if text_is(name, "LPRN") {
            Some(Key::LPRN)
        } else if text_is(name, "RPRN") {
            Some(Key::RPRN)
        } else if text_is(name, "LSBR") {
            Some(Key::LSBR)
        } else if text_is(name, "RSBR") {
            Some(Key::RSBR)
        } else if text_is(name, "LCBR") {
            Some(Key::LCBR)
        } else if text_is(name, "RCBR") {
            Some(Key::RCBR)
        } else if text_is(name, "QUOT") {
            Some(Key::QUOT)
        } else if text_is(name, "UP") {
            Some(Key::UP)
        } else if text_is(name, "LFT") {
            Some(Key::LFT)
        } else if text_is(name, "RHT") {
            Some(Key::RHT)
        } else if text_is(name, "DN") {
            Some(Key::DN)
        } else {
            None
        }
    }
}

/// What one key position does on one layer.
#[derive(Debug, Clone, Copy, PartialEq, Eq, Structural)]
pub enum Behavior {
    /// Sends a key code.
    Key(Key),
    /// Activates the layer with this id while the key is held.
    MomentaryLayer(u32),
    /// Sends the first key when held, the second when tapped.
    HoldTap(Key, Key),
    /// Falls through to the next lower active layer.
    Transparent,
    /// Does nothing.
    NoOp,
}

/// One layer: its id and the behaviors of its key positions, row by row.
#[derive(Debug, Clone, Copy, PartialEq, Eq)]
pub struct Layer {
    pub id: u32,
    pub keys: [Behavior; KEYS],
}

/// Global timing options.
#[derive(Debug, Clone, Copy, PartialEq, Eq, Structural)]
pub struct Options {
    pub tapping_term_ms: Option<u32>,
}

/// A compiled configuration: the options and a fixed table of layer slots.
#[derive(Debug, Clone, Copy, PartialEq, Eq)]
pub struct Config {
    pub options: Options,
    pub layers: [Option<Layer>; NUM_LAYERS],
}

/// The content of a configuration: the options and, for each slot, the
/// behaviors of the layer there, if any.
pub struct ConfigView {
    pub options: Options,
    pub slots: Seq<Option<Seq<Behavior>>>,
}

/// The slot table for a list of layers: layer `i` in slot `i`, the rest empty.
pub open spec fn slots_of(layers: Seq<Seq<Behavior>>) -> Seq<Option<Seq<Behavior>>> {
    Seq::new(
        NUM_LAYERS as nat,
        |i: int|
            if i < layers.len() {
                Some(layers[i])
            } else {
                None
            },
    )
}

/// Each present slot holds the layer whose id is the slot's index.
pub open spec fn slots_wf(layers: [Option<Layer>; NUM_LAYERS]) -> bool {
    forall|i: int|
        0 <= i < NUM_LAYERS ==> (#[trigger] layers[i] is Some ==> layers[i]->Some_0.id == i)
}

/// For each slot, the behaviors of the layer there, if any.
pub open spec fn slots_view(layers: [Option<Layer>; NUM_LAYERS]) -> Seq<Option<Seq<Behavior>>> {
    Seq::new(
        NUM_LAYERS as nat,
        |i: int|
            match layers[i] {
                Some(l) => Some(l.keys@),
                None => None,
            },
    )
}

impl Config {
    pub open spec fn wf(&self) -> bool {
        slots_wf(self.layers)
    }
}

impl View for Config {
    type V = ConfigView;

    open spec fn view(&self) -> ConfigView {
        ConfigView { options: self.options, slots: slots_view(self.layers) }
    }
}

} // verus!
