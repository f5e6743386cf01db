//! The layout engines' output model: positioned elements and their bounds.

use vstd::prelude::*;
use crate::geom::COORD_LIMIT;
use crate::geom::Point;
use crate::geom::Rect;
use crate::geom::imax;
use crate::geom::imin;
use crate::geom::spec_imax;
use crate::geom::spec_imin;

verus! {

/// How an edge's end markers are to be drawn.
#[derive(Clone, Copy, Debug, PartialEq, Eq, Structural)]
pub enum EdgeType {
    Association,
    Link,
}

/// A string-keyed property map carrying free-form annotations.
#[derive(Debug)]
pub struct Props {
    pub entries: Vec<(String, String)>,
}

/// The value stored under a key, searching from the front.
pub open spec fn props_lookup(entries: Seq<(String, String)>, key: Seq<char>) -> Option<
    Seq<char>,
>
    decreases entries,
{
    if entries.len() == 0 {
        None
    } else if entries[0].0@ == key {
        Some(entries[0].1@)
    } else {
        props_lookup(entries.skip(1), key)
    }
}

impl Props {
    pub open spec fn lookup(self, key: Seq<char>) -> Option<Seq<char>> {
        props_lookup(self.entries@, key)
    }

    pub open spec fn is_empty(self) -> bool {
        self.entries@.len() == 0
    }

    pub fn new() -> (p: Props)
        ensures
            p.entries@ =~= Seq::<(String, String)>::empty(),
            p.is_empty(),
    {
        Props { entries: Vec::new() }
    }

    pub fn insert(&mut self, key: String, value: String)
        ensures
            final(self).entries@ == old(self).entries@.push((key, value)),
    {
        self.entries.push((key, value));
    }

    /// The value stored under `key`, if any.
    pub fn get<'a>(&'a self, key: &str) -> (r: Option<&'a String>)
        ensures
            match r {
                Some(v) => self.lookup(key@) == Some(v@),
                None => self.lookup(key@) is None,
            },
    {
        let owned: String = key.to_owned();
        let n = self.entries.len();
        proof {
            assert(self.entries@.skip(0) =~= self.entries@);
        }
        for i in 0..n
            invariant
                n == self.entries@.len(),
                owned@ == key@,
                props_lookup(self.entries@.skip(i as int), key@) == props_lookup(
                    self.entries@,
                    key@,
                ),
        {
            proof {
                assert(self.entries@.skip(i as int)[0] == self.entries@[i as int]);
            }
            if self.entries[i].0 == owned {
                return Some(&self.entries[i].1);
            }
            proof {
                assert(self.entries@.skip(i as int).skip(1) =~= self.entries@.skip(i + 1));
            }
        }
        proof {
            assert(self.entries@.skip(n as int) =~= Seq::<(String, String)>::empty());
        }
        None
    }
}

/// One rendered branch of a fragment frame.
#[derive(Debug)]
pub struct FragmentSection {
    pub condition: Option<String>,
    pub start_y: i64,
    pub end_y: i64,
    pub children: Vec<LayoutElement>,
}

/// The visual kind of a layout element, with its kind-specific data.
#[derive(Debug)]
pub enum ElementType {
    Rectangle { label: String, corner_radius: i64 },
    Ellipse { label: Option<String> },
    Text { text: String, font_size: i64 },
    Edge {
        points: Vec<Point>,
        label: Option<String>,
        arrow_start: bool,
        arrow_end: bool,
        dashed: bool,
        edge_type: EdgeType,
        from_cardinality: Option<String>,
        to_cardinality: Option<String>,
    },
    Fragment { fragment_type: String, sections: Vec<FragmentSection> },
    State { name: String, description: Option<String> },
    CompositeState { name: String, header_height: i64 },
    InitialState,
    FinalState,
    Activation,
    ParticipantBox,
}

/// A positioned visual element.
#[derive(Debug)]
pub struct LayoutElement {
    pub id: String,
    pub bounds: Rect,
    pub text: Option<String>,
    pub properties: Props,
    pub element_type: ElementType,
}

/// The engine's result: elements in painter's order, and their tight union.
#[derive(Debug)]
pub struct LayoutResult {
    pub elements: Vec<LayoutElement>,
    pub bounds: Rect,
}

/// Smallest x origin among the elements (0 when there are none).
pub open spec fn els_min_x(els: Seq<LayoutElement>) -> int
    decreases els,
{
    if els.len() == 0 {
        0
    } else if els.len() == 1 {
        els[0].bounds.x as int
    } else {
        spec_imin(els[0].bounds.x as int, els_min_x(els.skip(1)))
    }
}

pub open spec fn els_min_y(els: Seq<LayoutElement>) -> int
    decreases els,
{
    if els.len() == 0 {
        0
    } else if els.len() == 1 {
        els[0].bounds.y as int
    } else {
        spec_imin(els[0].bounds.y as int, els_min_y(els.skip(1)))
    }
}

pub open spec fn els_max_right(els: Seq<LayoutElement>) -> int
    decreases els,
{
    if els.len() == 0 {
        0
    } else if els.len() == 1 {
        els[0].bounds.right()
    } else {
        spec_imax(els[0].bounds.right(), els_max_right(els.skip(1)))
    }
}

pub open spec fn els_max_bottom(els: Seq<LayoutElement>) -> int
    decreases els,
{
    if els.len() == 0 {
        0
    } else if els.len() == 1 {
        els[0].bounds.bottom()
    } else {
        spec_imax(els[0].bounds.bottom(), els_max_bottom(els.skip(1)))
    }
}

/// The tight union: every element's bounds lies inside the computed extent,
/// and the extent touches elements on all four sides.
pub open spec fn bounds_is_tight_union(bounds: Rect, els: Seq<LayoutElement>) -> bool {
    if els.len() == 0 {
        bounds == (Rect { x: 0, y: 0, width: 1, height: 1 })
    } else {
        &&& bounds.x == els_min_x(els)
        &&& bounds.y == els_min_y(els)
        &&& bounds.x + bounds.width == els_max_right(els)
        &&& bounds.y + bounds.height == els_max_bottom(els)
    }
}

/// All element bounds lie within the coordinate range.
pub open spec fn els_in_range(els: Seq<LayoutElement>) -> bool {
    forall|i: int| 0 <= i < els.len() ==> (#[trigger] els[i]).bounds.in_range()
}

proof fn lemma_extent_covers(els: Seq<LayoutElement>, i: int)
    requires
        0 <= i < els.len(),
    ensures
        els_min_x(els) <= els[i].bounds.x,
        els_min_y(els) <= els[i].bounds.y,
        els_max_right(els) >= els[i].bounds.right(),
        els_max_bottom(els) >= els[i].bounds.bottom(),
    decreases els,
{
    if els.len() > 1 && i > 0 {
        lemma_extent_covers(els.skip(1), i - 1);
        assert(els.skip(1)[i - 1] == els[i]);
    }
}

/// The extent of in-range elements is itself in a bounded range.
pub proof fn lemma_extent_range(els: Seq<LayoutElement>)
    requires
        els.len() > 0,
        els_in_range(els),
    ensures
        -COORD_LIMIT <= els_min_x(els) <= COORD_LIMIT,
        -COORD_LIMIT <= els_min_y(els) <= COORD_LIMIT,
        -COORD_LIMIT <= els_max_right(els) <= 2 * COORD_LIMIT,
        -COORD_LIMIT <= els_max_bottom(els) <= 2 * COORD_LIMIT,
    decreases els,
{
    assert(els[0].bounds.in_range());
    if els.len() > 1 {
        assert forall|i: int| 0 <= i < els.skip(1).len() implies (#[trigger] els.skip(1)[
            i
        ]).bounds.in_range() by {
            assert(els.skip(1)[i] == els[i + 1]);
        }
        lemma_extent_range(els.skip(1));
    }
}

/// A tight union covers every element's bounds.
pub proof fn lemma_tight_union_contains(bounds: Rect, els: Seq<LayoutElement>, i: int)
    requires
        bounds_is_tight_union(bounds, els),
        0 <= i < els.len(),
    ensures
        bounds.contains_rect(els[i].bounds),
{
    lemma_extent_covers(els, i);
}

/// A tight union of positive rectangles is itself positive.
pub proof fn lemma_tight_union_positive(bounds: Rect, els: Seq<LayoutElement>)
    requires
        bounds_is_tight_union(bounds, els),
        forall|i: int| 0 <= i < els.len() ==> (#[trigger] els[i]).bounds.is_positive(),
    ensures
        bounds.width > 0,
        bounds.height > 0,
    decreases els,
{
    if els.len() > 0 {
        lemma_extent_covers(els, 0);
    }
}

impl LayoutResult {
    /// Recomputes `bounds` as the tight union of all element bounds.
    /// An element-free result gets the minimal positive extent.
    pub fn calculate_bounds(&mut self)
        requires
            els_in_range(old(self).elements@),
        ensures
            final(self).elements@ == old(self).elements@,
            bounds_is_tight_union(final(self).bounds, final(self).elements@),
    {
        let n = self.elements.len();
        if n == 0 {
            self.bounds = Rect::new(0, 0, 1, 1);
            return ;
        }
        proof {
            assert(self.elements@[0].bounds.in_range());
        }
        let mut min_x: i64 = self.elements[0].bounds.x;
        let mut min_y: i64 = self.elements[0].bounds.y;
        let mut max_r: i64 = self.elements[0].bounds.x + self.elements[0].bounds.width;
        let mut max_b: i64 = self.elements[0].bounds.y + self.elements[0].bounds.height;
        let ghost els = self.elements@;
        let mut i: usize = 1;
        while i < n
            invariant
                1 <= i <= n,
                n == els.len(),
                els == self.elements@,
                els_in_range(els),
                min_x == els_min_x(els.take(i as int)),
                min_y == els_min_y(els.take(i as int)),
                max_r == els_max_right(els.take(i as int)),
                max_b == els_max_bottom(els.take(i as int)),
                -COORD_LIMIT <= min_x <= COORD_LIMIT,
                -COORD_LIMIT <= min_y <= COORD_LIMIT,
                -COORD_LIMIT <= max_r <= 2 * COORD_LIMIT,
                -COORD_LIMIT <= max_b <= 2 * COORD_LIMIT,
            decreases n - i,
        {
            proof {
                lemma_extent_prefix(els, i as int);
                assert(els[i as int].bounds.in_range());
            }
            min_x = imin(min_x, self.elements[i].bounds.x);
            min_y = imin(min_y, self.elements[i].bounds.y);
            max_r = imax(max_r, self.elements[i].bounds.x + self.elements[i].bounds.width);
            max_b = imax(max_b, self.elements[i].bounds.y + self.elements[i].bounds.height);
            i = i + 1;
        }
        proof {
            assert(els.take(n as int) =~= els);
        }
        self.bounds = Rect::new(min_x, min_y, max_r - min_x, max_b - min_y);
    }
}

/// Extending a non-empty prefix by one element combines its extent with the
/// element's bounds.
proof fn lemma_extent_prefix(els: Seq<LayoutElement>, i: int)
    requires
        1 <= i < els.len(),
    ensures
        els_min_x(els.take(i + 1)) == spec_imin(els_min_x(els.take(i)), els[i].bounds.x as int),
        els_min_y(els.take(i + 1)) == spec_imin(els_min_y(els.take(i)), els[i].bounds.y as int),
        els_max_right(els.take(i + 1)) == spec_imax(els_max_right(els.take(i)), els[i].bounds.right()),
        els_max_bottom(els.take(i + 1)) == spec_imax(
            els_max_bottom(els.take(i)),
            els[i].bounds.bottom(),
        ),
{
    lemma_extent_snoc(els.take(i + 1));
    assert(els.take(i + 1).take(i) =~= els.take(i));
    assert(els.take(i + 1)[i] == els[i]);
}

/// The extent of a sequence combines the extent of all but the last element
/// with the last element's bounds.
proof fn lemma_extent_snoc(els: Seq<LayoutElement>)
    requires
        els.len() >= 2,
    ensures
        els_min_x(els) == spec_imin(els_min_x(els.take(els.len() - 1)), els.last().bounds.x as int),
        els_min_y(els) == spec_imin(els_min_y(els.take(els.len() - 1)), els.last().bounds.y as int),
        els_max_right(els) == spec_imax(
            els_max_right(els.take(els.len() - 1)),
            els.last().bounds.right(),
        ),
        els_max_bottom(els) == spec_imax(
            els_max_bottom(els.take(els.len() - 1)),
            els.last().bounds.bottom(),
        ),
    decreases els,
{
    let front = els.take(els.len() - 1);
    if els.len() == 2 {
        assert(els.skip(1) =~= seq![els[1]]);
        assert(front =~= seq![els[0]]);
        assert(els.last() == els[1]);
        assert(els_min_x(els.skip(1)) == els[1].bounds.x as int);
        assert(els_min_x(front) == els[0].bounds.x as int);
        assert(els_min_x(els) == spec_imin(els[0].bounds.x as int, els_min_x(els.skip(1))));
        assert(els_min_y(els.skip(1)) == els[1].bounds.y as int);
        assert(els_min_y(front) == els[0].bounds.y as int);
        assert(els_min_y(els) == spec_imin(els[0].bounds.y as int, els_min_y(els.skip(1))));
        assert(els_max_right(els.skip(1)) == els[1].bounds.right());
        assert(els_max_right(front) == els[0].bounds.right());
        assert(els_max_right(els) == spec_imax(els[0].bounds.right(), els_max_right(els.skip(1))));
        assert(els_max_bottom(els.skip(1)) == els[1].bounds.bottom());
        assert(els_max_bottom(front) == els[0].bounds.bottom());
        assert(els_max_bottom(els) == spec_imax(
            els[0].bounds.bottom(),
            els_max_bottom(els.skip(1)),
        ));
    } else {
        lemma_extent_snoc(els.skip(1));
        assert(els.skip(1).take(els.skip(1).len() - 1) =~= front.skip(1));
        assert(els.skip(1).last() == els.last());
        assert(front[0] == els[0]);
        assert(front.len() >= 2);
        assert(els_min_x(els) == spec_imin(els[0].bounds.x as int, els_min_x(els.skip(1))));
        assert(els_min_x(front) == spec_imin(front[0].bounds.x as int, els_min_x(front.skip(1))));
        assert(els_min_y(els) == spec_imin(els[0].bounds.y as int, els_min_y(els.skip(1))));
        assert(els_min_y(front) == spec_imin(front[0].bounds.y as int, els_min_y(front.skip(1))));
        assert(els_max_right(els) == spec_imax(els[0].bounds.right(), els_max_right(els.skip(1))));
        assert(els_max_right(front) == spec_imax(
            front[0].bounds.right(),
            els_max_right(front.skip(1)),
        ));
        assert(els_max_bottom(els) == spec_imax(
            els[0].bounds.bottom(),
            els_max_bottom(els.skip(1)),
        ));
        assert(els_max_bottom(front) == spec_imax(
            front[0].bounds.bottom(),
            els_max_bottom(front.skip(1)),
        ));
    }
}

} // verus!
