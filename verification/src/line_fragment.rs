//! Oriented line-segment shapes. A fragment occupies one grid cell and spans
//! exactly two of the cell's four corner nodes; the activation flag marks
//! fragments that currently lie on a chain spanning the grid.

use vstd::prelude::*;

verus! {

#[derive(Debug, Clone, Copy, PartialEq, Eq, Structural)]
pub enum LineFragmentKind {
    Caret,
    InvertedCaret,
    LeftSlash,
    RightSlash,
}

/// The corner node nearer the cell origin that a fragment of kind `k` in the
/// cell at `(cx, cy)` touches. Corner nodes live on the lattice one larger
/// than the cell grid; the cell's own corners are `(cx, cy)` up to
/// `(cx + 1, cy + 1)`.
pub open spec fn fragment_corner_a(k: LineFragmentKind, cx: int, cy: int) -> (int, int) {
    match k {
        LineFragmentKind::Caret => (cx, cy),
        LineFragmentKind::InvertedCaret => (cx, cy + 1),
        LineFragmentKind::LeftSlash => (cx, cy + 1),
        LineFragmentKind::RightSlash => (cx, cy),
    }
}

/// The other corner node that a fragment of kind `k` in the cell at
/// `(cx, cy)` touches.
pub open spec fn fragment_corner_b(k: LineFragmentKind, cx: int, cy: int) -> (int, int) {
    match k {
        LineFragmentKind::Caret => (cx + 1, cy),
        LineFragmentKind::InvertedCaret => (cx + 1, cy + 1),
        LineFragmentKind::LeftSlash => (cx + 1, cy),
        LineFragmentKind::RightSlash => (cx + 1, cy + 1),
    }
}

/// Whether the corner node `n` is one of the two endpoints of a fragment of
/// kind `k` in the cell at `(cx, cy)`.
pub open spec fn fragment_touches(k: LineFragmentKind, cx: int, cy: int, n: (int, int)) -> bool {
    n == fragment_corner_a(k, cx, cy) || n == fragment_corner_b(k, cx, cy)
}

/// The endpoint of the fragment other than `n` (meaningful when the fragment
/// touches `n`).
pub open spec fn fragment_other_corner(k: LineFragmentKind, cx: int, cy: int, n: (int, int)) -> (
    int,
    int,
) {
    if n == fragment_corner_a(k, cx, cy) {
        fragment_corner_b(k, cx, cy)
    } else {
        fragment_corner_a(k, cx, cy)
    }
}

pub open spec fn is_fragment_char(c: char) -> bool {
    c == '∧' || c == '∨' || c == '\\' || c == '/'
}

pub open spec fn spec_kind_from_char(c: char) -> LineFragmentKind {
    if c == '∧' {
        LineFragmentKind::Caret
    } else if c == '∨' {
        LineFragmentKind::InvertedCaret
    } else if c == '\\' {
        LineFragmentKind::LeftSlash
    } else {
        LineFragmentKind::RightSlash
    }
}

pub open spec fn spec_kind_to_char(k: LineFragmentKind) -> char {
    match k {
        LineFragmentKind::Caret => '∧',
        LineFragmentKind::InvertedCaret => '∨',
        LineFragmentKind::LeftSlash => '\\',
        LineFragmentKind::RightSlash => '/',
    }
}

impl LineFragmentKind {
    /// Parses a shape character; only the four shape characters are accepted.
    pub fn from_char(c: &char) -> (r: Self)
        requires
            is_fragment_char(*c),
        ensures
            r == spec_kind_from_char(*c),
    {
        if *c == '∧' {
            LineFragmentKind::Caret
        } else if *c == '∨' {
            LineFragmentKind::InvertedCaret
        } else if *c == '\\' {
            LineFragmentKind::LeftSlash
        } else {
            LineFragmentKind::RightSlash
        }
    }

    pub fn to_char(&self) -> (r: char)
        ensures
            r == spec_kind_to_char(*self),
    {
        match self {
            LineFragmentKind::Caret => '∧',
            LineFragmentKind::InvertedCaret => '∨',
            LineFragmentKind::LeftSlash => '\\',
            LineFragmentKind::RightSlash => '/',
        }
    }
}

#[derive(Debug, Clone, Copy, PartialEq, Eq, Structural)]
pub struct LineFragment {
    pub kind: LineFragmentKind,
    pub is_active: bool,
}

/// One-letter encoding of a fragment: the letter gives the kind, the case
/// gives the activation flag (upper case is active).
pub open spec fn is_fragment_letter(c: char) -> bool {
    c == 'C' || c == 'c' || c == 'I' || c == 'i' || c == 'L' || c == 'l' || c == 'R' || c == 'r'
}

pub open spec fn spec_fragment_from_letter(c: char) -> LineFragment {
    if c == 'C' {
        LineFragment { is_active: true, kind: LineFragmentKind::Caret }
    } else if c == 'c' {
        LineFragment { is_active: false, kind: LineFragmentKind::Caret }
    } else if c == 'I' {
        LineFragment { is_active: true, kind: LineFragmentKind::InvertedCaret }
    } else if c == 'i' {
        LineFragment { is_active: false, kind: LineFragmentKind::InvertedCaret }
    } else if c == 'L' {
        LineFragment { is_active: true, kind: LineFragmentKind::LeftSlash }
    } else if c == 'l' {
        LineFragment { is_active: false, kind: LineFragmentKind::LeftSlash }
    } else if c == 'R' {
        LineFragment { is_active: true, kind: LineFragmentKind::RightSlash }
    } else {
        LineFragment { is_active: false, kind: LineFragmentKind::RightSlash }
    }
}

pub open spec fn spec_fragment_to_letter(lf: LineFragment) -> char {
    match lf.kind {
        LineFragmentKind::Caret => if lf.is_active {
            'C'
        } else {
            'c'
        },
        LineFragmentKind::InvertedCaret => if lf.is_active {
            'I'
        } else {
            'i'
        },
        LineFragmentKind::LeftSlash => if lf.is_active {
            'L'
        } else {
            'l'
        },
        LineFragmentKind::RightSlash => if lf.is_active {
            'R'
        } else {
            'r'
        },
    }
}

impl LineFragment {
    /// A freshly parsed fragment starts out inactive.
    pub fn from_char(c: &char) -> (r: Self)
        requires
            is_fragment_char(*c),
        ensures
            r == (LineFragment { is_active: false, kind: spec_kind_from_char(*c) }),
    {
        let kind = LineFragmentKind::from_char(c);
        Self { is_active: false, kind }
    }

    /// Parses the one-letter encoding (kind plus activation flag).
    pub fn from_str(lf_str: &str) -> (r: Self)
        requires
            lf_str@.len() == 1,
            is_fragment_letter(lf_str@[0]),
        ensures
            r == spec_fragment_from_letter(lf_str@[0]),
    {
        let c = lf_str.get_char(0);
        if c == 'C' {
            LineFragment { is_active: true, kind: LineFragmentKind::Caret }
        } else if c == 'c' {
            LineFragment { is_active: false, kind: LineFragmentKind::Caret }
        } else if c == 'I' {
            LineFragment { is_active: true, kind: LineFragmentKind::InvertedCaret }
        } else if c == 'i' {
            LineFragment { is_active: false, kind: LineFragmentKind::InvertedCaret }
        } else if c == 'L' {
            LineFragment { is_active: true, kind: LineFragmentKind::LeftSlash }
        } else if c == 'l' {
            LineFragment { is_active: false, kind: LineFragmentKind::LeftSlash }
        } else if c == 'R' {
            LineFragment { is_active: true, kind: LineFragmentKind::RightSlash }
        } else {
            LineFragment { is_active: false, kind: LineFragmentKind::RightSlash }
        }
    }

    pub fn to_char(&self) -> (r: char)
        ensures
            r == spec_kind_to_char(self.kind),
    {
        self.kind.to_char()
    }

    pub fn to_str(&self) -> (r: &'static str)
        ensures
            r@ == seq![spec_fragment_to_letter(*self)],
    {
        proof {
            reveal_strlit("C");
            reveal_strlit("c");
            reveal_strlit("I");
            reveal_strlit("i");
            reveal_strlit("L");
            reveal_strlit("l");
            reveal_strlit("R");
            reveal_strlit("r");
        }
        let r: &'static str = match self.kind {
            LineFragmentKind::Caret => if self.is_active {
                "C"
            } else {
                "c"
            },
            LineFragmentKind::InvertedCaret => if self.is_active {
                "I"
            } else {
                "i"
            },
            LineFragmentKind::LeftSlash => if self.is_active {
                "L"
            } else {
                "l"
            },
            LineFragmentKind::RightSlash => if self.is_active {
                "R"
            } else {
                "r"
            },
        };
        proof {
            assert(r@ =~= seq![spec_fragment_to_letter(*self)]);
        }
        r
    }
}

} // verus!
