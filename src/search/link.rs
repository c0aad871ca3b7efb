use vstd::prelude::*;

use crate::dsu::Unite;

verus! {

/// The state of one path fragment while solving.
#[derive(Debug, Clone, Copy, PartialEq, Eq)]
pub enum Link {
    /// Anchored to a color, with one free end.
    Colored(usize, usize),
    /// No color yet, with two free ends (`Uncolored(u, u)` for a lone cell).
    Uncolored(usize, usize),
    /// A finished path of this color: no free end is left.
    Complete(usize),
}

/// Of a fragment with ends `a` and `b`, the end that is not `x`.
pub open spec fn far_end(a: usize, b: usize, x: usize) -> usize {
    if x == a {
        b
    } else {
        a
    }
}

/// The fragment that joining `a` at cell `u` to `b` at cell `v` gives, if the join is legal.
pub open spec fn link_unite(a: Link, b: Link, u: usize, v: usize) -> Option<Link> {
    match (a, b) {
        (Link::Uncolored(a1, a2), Link::Uncolored(b1, b2)) => {
            let x = far_end(a1, a2, u);
            let y = far_end(b1, b2, v);
            Some(Link::Uncolored(if x <= y { x } else { y }, if x <= y { y } else { x }))
        },
        (Link::Uncolored(a1, a2), Link::Colored(color, _)) => Some(Link::Colored(color, far_end(a1, a2, u))),
        (Link::Colored(color, _), Link::Uncolored(b1, b2)) => Some(Link::Colored(color, far_end(b1, b2, v))),
        (Link::Colored(c1, _), Link::Colored(c2, _)) => if c1 == c2 {
            Some(Link::Complete(c1))
        } else {
            None
        },
        _ => None,
    }
}

fn other_end(a: usize, b: usize, x: usize) -> (r: usize)
    ensures
        r == far_end(a, b, x),
{
    if x == a {
        b
    } else {
        a
    }
}

impl Unite for Link {
    open spec fn spec_unite(self, oth: Self, u: usize, v: usize) -> Option<Self> {
        link_unite(self, oth, u, v)
    }

    fn unite(self, oth: Self, u: usize, v: usize) -> (r: Option<Self>) {
        match self {
            Link::Uncolored(u1, u2) => {
                let x = other_end(u1, u2, u);
                match oth {
                    Link::Uncolored(v1, v2) => {
                        let y = other_end(v1, v2, v);
                        if x <= y {
                            Some(Link::Uncolored(x, y))
                        } else {
                            Some(Link::Uncolored(y, x))
                        }
                    },
                    Link::Colored(color, _) => Some(Link::Colored(color, x)),
                    Link::Complete(_) => None,
                }
            },
            Link::Colored(color, _) => {
                match oth {
                    Link::Uncolored(v1, v2) => Some(Link::Colored(color, other_end(v1, v2, v))),
                    Link::Colored(c2, _) => {
                        if color == c2 {
                            Some(Link::Complete(color))
                        } else {
                            None
                        }
                    },
                    Link::Complete(_) => None,
                }
            },
            Link::Complete(_) => None,
        }
    }
}

} // verus!
